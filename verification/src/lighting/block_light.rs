//! One block light at a time: added, removed, or alone.
use std::collections::VecDeque;

use vstd::prelude::*;

use crate::lighting::cpu_light::neighbour_place;
use crate::lighting::light_cpu::{
    channel, channel_is_levels, in_world, one_cell_changes, places, set_half, standard_facts, standard_losses, Flood,
};
use crate::lighting::light_model::{
    block_levels, is_block_light, standard_emissions, standard_opacities,
};
use crate::lighting::relight::pushed;
use crate::lighting::world::{emission, World};
use crate::voxel::flood::{
    active, flood_from_seeds_settles, flooded, incoming, is_drops, is_levels, raised_by, settled,
    settled_is_enough_and_earned, spent,
};
use crate::voxel::nibble::{halves, high, low, low_of};
use crate::voxel::shape::{opposite, pos_of, Pos, Shape, DIR_STEP};

verus! {

/// The position that a triple of coordinates in the world names.
pub open spec fn pos_at(p: [usize; 3]) -> Pos {
    Pos { x: p[0] as int, y: p[1] as int, z: p[2] as int }
}

/// A queue of one cell.
fn only(p: [i32; 3]) -> (queue: VecDeque<[i32; 3]>)
    ensures
        queue@ == seq![p],
{
    let mut queue: VecDeque<[i32; 3]> = VecDeque::new();
    queue.push_back(p);
    assert(queue@ =~= seq![p]);
    queue
}

/// The place of a queue's only cell.
proof fn only_place(sh: Shape, p: [i32; 3])
    ensures
        places(sh, seq![p]) == set![sh.place(pos_of(p))],
{
    let q = seq![p];
    assert forall|i: int| places(sh, q).contains(i) == set![sh.place(pos_of(p))].contains(i) by {
        if i == sh.place(pos_of(p)) {
            assert(sh.place(pos_of(q[0])) == i);
        }
    }
    assert(places(sh, q) =~= set![sh.place(pos_of(p))]);
}

/// A block light added, for the block at `p` having become an emitter of `level`:
/// nothing changes where the cell has that light already, and light floods from the
/// cell where it has less. `world` has the block.
pub fn add_block_light(world: &World, light: &mut Vec<u8>, p: [usize; 3], level: u8)
    requires
        world.wf(),
        old(light)@.len() == world.blocks@.len(),
        world.shape().has(pos_at(p)),
        level <= 15,
    ensures
        added(world, old(light)@, pos_at(p), level as int, final(light)@),
{
    let i = world.index(p[0], p[1], p[2]);
    if level <= low_of(light[i]) {
        return;
    }
    let b = set_half(light[i], false, level);
    proof {
        one_cell_changes(light@, i as int, b, false, level as int);
    }
    light.set(i, b);
    let c = [p[0] as i32, p[1] as i32, p[2] as i32];
    assert(pos_of(c) == pos_at(p));
    let f = Flood { world };
    let queue = only(c);
    proof {
        only_place(world.shape(), c);
    }
    f.spread(light, queue, false);
}

/// `out` is `light` after an emitter of `level` came to `p`.
pub open spec fn added(world: &World, light: Seq<u8>, p: Pos, level: int, out: Seq<u8>) -> bool {
    let sh = world.shape();
    let i = sh.place(p);
    &&& out.len() == light.len()
    &&& level <= low(light[i]) ==> out == light
    &&& level > low(light[i]) ==> {
        &&& channel(out, true) == channel(light, true)
        &&& flooded(sh, standard_losses(world), set![i], block_levels(light).update(i, level), block_levels(out))
    }
}

/// Adding a light is exact: where the block light was right, and the cell at `p` came
/// to emit `level`, no less than before, the block light is right again. Whatever the
/// new emitter lets through, no neighbour can give it more than it emits. Only where
/// the cell emits nothing does its opacity have to be what it was.
pub proof fn adding_is_exact(before: &World, after: &World, light: Seq<u8>, p: Pos, level: int, out: Seq<u8>)
    requires
        before.wf(),
        after.wf(),
        before.shape() == after.shape(),
        after.shape().has(p),
        light.len() == after.shape().count(),
        forall|k: int|
            0 <= k < after.shape().count() && (k != after.shape().place(p) || level == 0)
                ==> #[trigger] standard_opacities(after)[k] == standard_opacities(before)[k],
        standard_emissions(after) == standard_emissions(before).update(after.shape().place(p), level),
        standard_emissions(before)[after.shape().place(p)] <= level <= 15,
        is_block_light(before.shape(), standard_opacities(before), standard_emissions(before), block_levels(light)),
        added(after, light, p, level, out),
    ensures
        is_block_light(after.shape(), standard_opacities(after), standard_emissions(after), block_levels(out)),
{
    let sh = after.shape();
    let drop = standard_losses(after);
    let had = standard_losses(before);
    let seed = standard_emissions(before);
    let seed2 = standard_emissions(after);
    let i = sh.place(p);
    let l = block_levels(light);
    let f = block_levels(out);
    sh.place_round_trip(p);
    standard_facts(after);
    standard_facts(before);
    settled_is_enough_and_earned(sh, seed, had, l);
    assert(seed2[i] == level);
    assert(level == 0 || level >= 14);
    assert forall|k: int| 0 <= k < sh.count() && (k != i || level == 0) implies #[trigger] drop[k] == had[k] by {
        assert(standard_opacities(after)[k] == standard_opacities(before)[k]);
    }
    settled_is_enough_and_earned(sh, seed2, drop, f);
    let base = if level <= l[i] {
        l
    } else {
        l.update(i, level)
    };
    channel_is_levels(sh, out, false);
    assert forall|k: int| 0 <= k < sh.count() implies #[trigger] f[k] >= seed2[k] && f[k] >= l[k] by {
        assert(l[k] >= seed[k]);
        assert(f[k] >= base[k]);
    }
    assert forall|k: int, d: int| 0 <= k < sh.count() && 0 <= d < 6 implies f[k] >= #[trigger] incoming(
        sh,
        drop,
        f,
        k,
        d,
    ) by {
        sh.next_and_back(k, d);
        assert(l[k] >= incoming(sh, had, l, k, d));
        assert(f[k] >= l[k]);
        assert(drop[k] == had[k] || f[k] >= seed2[k] >= 14);
        if let Some(j) = sh.next(k, d) {
            if level > l[i] && active(set![i], base, f, j) {
                assert(spent(sh, drop, f, j));
                assert(sh.next(j, opposite(d)) == Some(k));
            }
        }
    }
    assert forall|k: int| 0 <= k < sh.count() implies #[trigger] f[k] <= seed2[k] || (exists|d: int|
        0 <= d < 6 && f[k] <= #[trigger] incoming(sh, drop, f, k, d)) by {
        if level > l[i] && f[k] != base[k] {
            assert(raised_by(sh, drop, set![i], base, f, k));
            let d = choose|d: int|
                0 <= d < 6 && (match #[trigger] sh.next(k, d) {
                    Some(j) => active(set![i], base, f, j) && f[k] <= f[j] - drop[k],
                    None => false,
                });
            assert(f[k] <= incoming(sh, drop, f, k, d));
        } else if k == i && level > l[i] {
            assert(f[k] <= seed2[k]);
        } else {
            assert(f[k] == l[k]);
            if l[k] > seed[k] {
                let d = choose|d: int| 0 <= d < 6 && l[k] <= #[trigger] incoming(sh, had, l, k, d);
                sh.next_and_back(k, d);
                if let Some(j) = sh.next(k, d) {
                    assert(f[j] >= l[j]);
                }
                assert(f[k] <= incoming(sh, drop, f, k, d));
            }
        }
    }
}

/// The block light of one emitter of `level` at place `i`, and of nothing else.
pub open spec fn lone_emitter(n: nat, i: int, level: int) -> Seq<int> {
    Seq::new(
        n,
        |k: int|
            if k == i {
                level
            } else {
                0
            },
    )
}

/// The light of one moving light alone: `level` at `p`, spread through the blocks of
/// the world.
pub fn dynamic_light(world: &World, p: [usize; 3], level: u8) -> (light: Vec<u8>)
    requires
        world.wf(),
        world.shape().has(pos_at(p)),
        level <= 15,
    ensures
        light@.len() == world.shape().count(),
        is_block_light(
            world.shape(),
            standard_opacities(world),
            lone_emitter(world.blocks@.len(), world.shape().place(pos_at(p)), level as int),
            block_levels(light@),
        ),
        forall|k: int| 0 <= k < light@.len() ==> high(#[trigger] light@[k]) == 0,
{
    let ghost sh = world.shape();
    let n = world.blocks.len();
    let mut light: Vec<u8> = vec![0u8; n];
    let i = world.index(p[0], p[1], p[2]);
    light.set(i, level);
    let ghost start = light@;
    let c = [p[0] as i32, p[1] as i32, p[2] as i32];
    assert(pos_of(c) == pos_at(p));
    let f = Flood { world };
    let queue = only(c);
    f.spread(&mut light, queue, false);
    proof {
        only_place(sh, c);
        standard_facts(world);
        let seed = lone_emitter(world.blocks@.len(), i as int, level as int);
        assert forall|k: int| 0 <= k < start.len() implies channel(start, false)[k] == seed[k] && channel(start, true)[k] == 0 by {
            assert(start[k] == (if k == i {
                level
            } else {
                0
            }));
            halves(start[k]);
        }
        assert(channel(start, false) =~= seed);
        flood_from_seeds_settles(sh, seed, standard_losses(world), set![i as int], block_levels(light@));
        assert forall|k: int| 0 <= k < light@.len() implies high(#[trigger] light@[k]) == 0 by {
            assert(channel(light@, true)[k] == channel(start, true)[k]);
        }
    }
    light
}

/// What an entry of value `v` can still give rise to, itself counted.
pub open spec fn burden(v: int) -> nat
    decreases v,
{
    if v <= 0 {
        1
    } else {
        7 * burden(v - 1)
    }
}

/// What a queue can still give rise to.
pub open spec fn burdens(q: Seq<([i32; 3], u8)>) -> nat
    decreases q.len(),
{
    if q.len() == 0 {
        0
    } else {
        burdens(q.drop_last()) + burden(q.last().1 as int)
    }
}

proof fn burdens_of_first(q: Seq<([i32; 3], u8)>)
    requires
        q.len() > 0,
    ensures
        burdens(q) == burden(q[0].1 as int) + burdens(q.subrange(1, q.len() as int)),
    decreases q.len(),
{
    let rest = q.subrange(1, q.len() as int);
    if q.len() > 1 {
        burdens_of_first(q.drop_last());
        assert(q.drop_last().subrange(1, q.len() - 1) =~= rest.drop_last());
    } else {
        assert(rest =~= Seq::empty());
        assert(q.drop_last() =~= Seq::empty());
    }
}

proof fn burdens_of_pushed(q: Seq<([i32; 3], u8)>, e: ([i32; 3], u8))
    ensures
        burdens(q.push(e)) == burdens(q) + burden(e.1 as int),
{
    assert(q.push(e).drop_last() =~= q);
}

proof fn less_is_less_burden(a: int, b: int)
    requires
        a <= b,
    ensures
        1 <= burden(a) <= burden(b),
    decreases b,
{
    if b > 0 {
        if a < b {
            less_is_less_burden(a, b - 1);
        } else {
            less_is_less_burden(a - 1, b - 1);
        }
    }
}

/// The queue has an entry for the cell at place `k`, with the value `v`.
pub open spec fn has_entry(sh: Shape, q: Seq<([i32; 3], u8)>, k: int, v: int) -> bool {
    exists|m: int| 0 <= m < q.len() && sh.place(pos_of((#[trigger] q[m]).0)) == k && q[m].1 == v
}

/// The queue has an entry for the cell at place `k`.
pub open spec fn has_entry_for(sh: Shape, q: Seq<([i32; 3], u8)>, k: int) -> bool {
    exists|m: int| 0 <= m < q.len() && sh.place(pos_of((#[trigger] q[m]).0)) == k
}

/// The neighbour of a dark cell is dark itself, was never lit, or was lit as much and
/// is to light again.
pub open spec fn edge(sh: Shape, l: Seq<int>, re: Set<int>, dark: Set<int>, k: int, d: int) -> bool {
    match sh.next(k, d) {
        Some(n) => dark.contains(n) || l[n] == 0 || (l[n] >= l[k] && re.contains(n)),
        None => true,
    }
}

/// How far the dark has spread: `l` is the light before, `f` now, `q` what is to be
/// looked at, `re` what is to light again, `dark` the cells put out, `seen` those
/// whose neighbours have been looked at. The cell at place `but` is being looked at,
/// for the first time where `first`.
pub open spec fn darkening(
    sh: Shape,
    emit: Seq<int>,
    l: Seq<int>,
    f: Seq<int>,
    q: Seq<([i32; 3], u8)>,
    re: Set<int>,
    dark: Set<int>,
    seen: Set<int>,
    but: int,
    first: bool,
) -> bool {
    &&& is_levels(sh, l)
    &&& is_levels(sh, f)
    &&& forall|k: int| 0 <= k < sh.count() && !dark.contains(k) ==> #[trigger] f[k] == l[k]
    &&& forall|k: int| #[trigger] dark.contains(k) ==> 0 <= k < sh.count()
    &&& forall|k: int| #[trigger] seen.contains(k) ==> dark.contains(k)
    &&& forall|k: int| #[trigger]
        dark.contains(k) ==> seen.contains(k) || has_entry(sh, q, k, l[k]) || (k == but && first)
    &&& forall|k: int, d: int| seen.contains(k) && 0 <= d < 6 ==> #[trigger] edge(sh, l, re, dark, k, d)
    &&& forall|k: int| #[trigger]
        dark.contains(k) ==> ((k == but && (f[k] == 0 || f[k] == emit[k])) || (f[k] == 0 && has_entry_for(sh, q, k)) || (
        f[k] == emit[k] && (emit[k] > 0 ==> re.contains(k))))
    &&& forall|m: int|
        0 <= m < q.len() ==> {
            let c = pos_of((#[trigger] q[m]).0);
            sh.has(c) && dark.contains(sh.place(c)) && q[m].1 <= 15
        }
}

/// The first entry is taken to be looked at.
proof fn take_entry(
    sh: Shape,
    emit: Seq<int>,
    l: Seq<int>,
    f: Seq<int>,
    q: Seq<([i32; 3], u8)>,
    re: Set<int>,
    dark: Set<int>,
    seen: Set<int>,
)
    requires
        q.len() > 0,
        darkening(sh, emit, l, f, q, re, dark, seen, -1, false),
    ensures
        ({
            let ci = sh.place(pos_of(q[0].0));
            &&& dark.contains(ci)
            &&& sh.has(pos_of(q[0].0))
            &&& q[0].1 <= 15
            &&& darkening(sh, emit, l, f, q.subrange(1, q.len() as int), re, dark, seen, ci, q[0].1 == l[ci])
        }),
{
    let ci = sh.place(pos_of(q[0].0));
    let r = q.subrange(1, q.len() as int);
    assert forall|k: int| #[trigger] dark.contains(k) implies seen.contains(k) || has_entry(sh, r, k, l[k]) || (k == ci
        && q[0].1 == l[ci]) by {
        if !seen.contains(k) {
            let m = choose|m: int| 0 <= m < q.len() && sh.place(pos_of((#[trigger] q[m]).0)) == k && q[m].1 == l[k];
            if m > 0 {
                assert(r[m - 1] == q[m]);
            }
        }
    }
    assert forall|k: int| #[trigger] dark.contains(k) implies ((k == ci && (f[k] == 0 || f[k] == emit[k])) || (f[k] == 0
        && has_entry_for(sh, r, k)) || (f[k] == emit[k] && (emit[k] > 0 ==> re.contains(k)))) by {
        if f[k] == 0 && has_entry_for(sh, q, k) {
            let m = choose|m: int| 0 <= m < q.len() && sh.place(pos_of((#[trigger] q[m]).0)) == k;
            if m > 0 {
                assert(r[m - 1] == q[m]);
            }
        }
    }
    assert forall|m: int| 0 <= m < r.len() implies {
        let c = pos_of((#[trigger] r[m]).0);
        sh.has(c) && dark.contains(sh.place(c)) && r[m].1 <= 15
    } by {
        assert(r[m] == q[m + 1]);
    }
}

/// A neighbour is put out.
proof fn put_out(
    sh: Shape,
    emit: Seq<int>,
    l: Seq<int>,
    f: Seq<int>,
    q: Seq<([i32; 3], u8)>,
    re: Set<int>,
    dark: Set<int>,
    seen: Set<int>,
    but: int,
    first: bool,
    n: [i32; 3],
    v: u8,
)
    requires
        sh.wf(),
        darkening(sh, emit, l, f, q, re, dark, seen, but, first),
        sh.has(pos_of(n)),
        sh.place(pos_of(n)) != but,
        f[sh.place(pos_of(n))] == v,
        v <= 15,
    ensures
        darkening(
            sh,
            emit,
            l,
            f.update(sh.place(pos_of(n)), 0),
            q.push((n, v)),
            re,
            dark.insert(sh.place(pos_of(n))),
            seen,
            but,
            first,
        ),
{
    let i = sh.place(pos_of(n));
    let r = q.push((n, v));
    let dark2 = dark.insert(i);
    let f2 = f.update(i, 0);
    sh.place_round_trip(pos_of(n));
    assert(r[q.len() as int] == (n, v));
    assert forall|k: int| #[trigger] dark2.contains(k) implies seen.contains(k) || has_entry(sh, r, k, l[k]) || (k == but
        && first) by {
        if dark.contains(k) {
            if has_entry(sh, q, k, l[k]) {
                let m = choose|m: int| 0 <= m < q.len() && sh.place(pos_of((#[trigger] q[m]).0)) == k && q[m].1 == l[k];
                assert(r[m] == q[m]);
            }
        } else {
            assert(f[k] == l[k]);
        }
    }
    assert forall|k: int, d: int| seen.contains(k) && 0 <= d < 6 implies #[trigger] edge(sh, l, re, dark2, k, d) by {
        assert(edge(sh, l, re, dark, k, d));
    }
    assert forall|k: int| #[trigger] dark2.contains(k) implies ((k == but && (f2[k] == 0 || f2[k] == emit[k])) || (f2[k]
        == 0 && has_entry_for(sh, r, k)) || (f2[k] == emit[k] && (emit[k] > 0 ==> re.contains(k)))) by {
        if k != i {
            assert(dark.contains(k));
            if f[k] == 0 && has_entry_for(sh, q, k) {
                let m = choose|m: int| 0 <= m < q.len() && sh.place(pos_of((#[trigger] q[m]).0)) == k;
                assert(r[m] == q[m]);
            }
        }
    }
    assert forall|m: int| 0 <= m < r.len() implies {
        let c = pos_of((#[trigger] r[m]).0);
        sh.has(c) && dark2.contains(sh.place(c)) && r[m].1 <= 15
    } by {
        if m < q.len() {
            assert(r[m] == q[m]);
        }
    }
}

/// More cells are to light again.
proof fn more_relight(
    sh: Shape,
    emit: Seq<int>,
    l: Seq<int>,
    f: Seq<int>,
    q: Seq<([i32; 3], u8)>,
    re: Set<int>,
    dark: Set<int>,
    seen: Set<int>,
    but: int,
    first: bool,
    re2: Set<int>,
)
    requires
        darkening(sh, emit, l, f, q, re, dark, seen, but, first),
        forall|k: int| re.contains(k) ==> #[trigger] re2.contains(k),
    ensures
        darkening(sh, emit, l, f, q, re2, dark, seen, but, first),
{
    assert forall|k: int, d: int| seen.contains(k) && 0 <= d < 6 implies #[trigger] edge(sh, l, re2, dark, k, d) by {
        assert(edge(sh, l, re, dark, k, d));
    }
}

/// The cell has been looked at, and is back at what it emits.
proof fn looked_at(
    sh: Shape,
    emit: Seq<int>,
    l: Seq<int>,
    f: Seq<int>,
    f2: Seq<int>,
    q: Seq<([i32; 3], u8)>,
    re: Set<int>,
    dark: Set<int>,
    seen: Set<int>,
    but: int,
    first: bool,
)
    requires
        darkening(sh, emit, l, f, q, re, dark, seen, but, first),
        dark.contains(but),
        is_levels(sh, f2),
        forall|k: int| 0 <= k < sh.count() && k != but ==> #[trigger] f2[k] == f[k],
        f2[but] == emit[but],
        emit[but] > 0 ==> re.contains(but),
        first ==> forall|d: int| 0 <= d < 6 ==> #[trigger] edge(sh, l, re, dark, but, d),
    ensures
        darkening(
            sh,
            emit,
            l,
            f2,
            q,
            re,
            dark,
            if first {
                seen.insert(but)
            } else {
                seen
            },
            -1,
            false,
        ),
{
}

/// When nothing is left to look at, lighting again from the edge gives the right light.
proof fn relighting_settles(
    sh: Shape,
    drop: Seq<int>,
    emit: Seq<int>,
    at: int,
    e: int,
    l: Seq<int>,
    f: Seq<int>,
    re: Set<int>,
    dark: Set<int>,
    seen: Set<int>,
    h: Seq<int>,
)
    requires
        sh.wf(),
        is_drops(sh, drop),
        emit.len() == sh.count(),
        forall|k: int| 0 <= k < emit.len() ==> 0 <= #[trigger] emit[k],
        settled(sh, emit.update(at, e), drop, l),
        darkening(sh, emit, l, f, Seq::empty(), re, dark, seen, -1, false),
        dark.contains(at),
        flooded(sh, drop, re, f, h),
    ensures
        settled(sh, emit, drop, h),
{
    settled_is_enough_and_earned(sh, emit.update(at, e), drop, l);
    settled_is_enough_and_earned(sh, emit, drop, h);
    assert forall|k: int| #[trigger] dark.contains(k) implies seen.contains(k) && f[k] == emit[k] && (emit[k] > 0
        ==> re.contains(k)) by {}
    assert forall|k: int| 0 <= k < sh.count() implies #[trigger] h[k] >= emit[k] by {
        assert(h[k] >= f[k]);
        if !dark.contains(k) {
            assert(l[k] >= emit.update(at, e)[k]);
        }
    }
    assert forall|k: int, d: int| 0 <= k < sh.count() && 0 <= d < 6 implies h[k] >= #[trigger] incoming(
        sh,
        drop,
        h,
        k,
        d,
    ) by {
        sh.next_and_back(k, d);
        assert(h[k] >= f[k]);
        if let Some(j) = sh.next(k, d) {
            if active(re, f, h, j) {
                assert(spent(sh, drop, h, j));
                assert(sh.next(j, opposite(d)) == Some(k));
            } else if !dark.contains(j) {
                assert(f[j] == l[j]);
                if dark.contains(k) {
                    assert(edge(sh, l, re, dark, k, d));
                } else {
                    assert(l[k] >= incoming(sh, drop, l, k, d));
                }
            }
        }
    }
    assert forall|k: int| 0 <= k < sh.count() implies #[trigger] h[k] <= emit[k] || (exists|d: int|
        0 <= d < 6 && h[k] <= #[trigger] incoming(sh, drop, h, k, d)) by {
        if h[k] != f[k] {
            assert(raised_by(sh, drop, re, f, h, k));
            let d = choose|d: int|
                0 <= d < 6 && (match #[trigger] sh.next(k, d) {
                    Some(j) => active(re, f, h, j) && h[k] <= h[j] - drop[k],
                    None => false,
                });
            assert(h[k] <= incoming(sh, drop, h, k, d));
        } else if !dark.contains(k) && l[k] > emit[k] {
            assert(l[k] > emit.update(at, e)[k]);
            let d = choose|d: int| 0 <= d < 6 && l[k] <= #[trigger] incoming(sh, drop, l, k, d);
            sh.next_and_back(k, d);
            let j = sh.next(k, d)->0;
            if dark.contains(j) {
                assert(edge(sh, l, re, dark, j, opposite(d)));
            }
            assert(h[j] >= f[j]);
            assert(h[k] <= incoming(sh, drop, h, k, d));
        }
    }
}

/// A block light removed, for the emitter at `p` being gone: everything it lit is put
/// out, and light floods back from the edge of the dark. `world` has the block gone.
/// Where the block light was right but for what `p` emitted, it is right after.
pub fn remove_block_light(world: &World, light: &mut Vec<u8>, p: [usize; 3])
    requires
        world.wf(),
        old(light)@.len() == world.blocks@.len(),
        world.shape().has(pos_at(p)),
    ensures
        final(light)@.len() == old(light)@.len(),
        channel(final(light)@, true) == channel(old(light)@, true),
        forall|e: int|
            is_block_light(
                world.shape(),
                standard_opacities(world),
                #[trigger] standard_emissions(world).update(world.shape().place(pos_at(p)), e),
                block_levels(old(light)@),
            ) ==> is_block_light(
                world.shape(),
                standard_opacities(world),
                standard_emissions(world),
                block_levels(final(light)@),
            ),
{
    let ghost sh = world.shape();
    let ghost emit = standard_emissions(world);
    let ghost l = channel(light@, false);
    let i = world.index(p[0], p[1], p[2]);
    let was = low_of(light[i]);
    let b = set_half(light[i], false, 0);
    proof {
        channel_is_levels(sh, light@, false);
        one_cell_changes(light@, i as int, b, false, 0);
    }
    light.set(i, b);
    let c0 = [p[0] as i32, p[1] as i32, p[2] as i32];
    assert(pos_of(c0) == pos_at(p));
    let mut dark: VecDeque<([i32; 3], u8)> = VecDeque::new();
    dark.push_back((c0, was));
    let mut relight: VecDeque<[i32; 3]> = VecDeque::new();
    let ghost mut out = set![i as int];
    let ghost mut seen = Set::<int>::empty();
    proof {
        assert(dark@[0] == (c0, was));
        assert(has_entry(sh, dark@, i as int, l[i as int]));
        assert(has_entry_for(sh, dark@, i as int));
    }
    while dark.len() > 0
        invariant
            world.wf(),
            sh == world.shape(),
            emit == standard_emissions(world),
            light@.len() == old(light)@.len(),
            light@.len() == world.blocks@.len(),
            channel(light@, true) == channel(old(light)@, true),
            l == channel(old(light)@, false),
            in_world(sh, relight@),
            out.contains(i as int),
            darkening(sh, emit, l, channel(light@, false), dark@, places(sh, relight@), out, seen, -1, false),
        decreases burdens(dark@),
    {
        let ghost q0 = dark@;
        let entry = dark.pop_front();
        let (c, v) = entry.unwrap();
        proof {
            take_entry(sh, emit, l, channel(light@, false), q0, places(sh, relight@), out, seen);
            burdens_of_first(q0);
            less_is_less_burden(v - 1, v as int);
        }
        let ghost ci = sh.place(pos_of(c));
        let ghost first = v == l[ci];
        let ghost left = burdens(dark@);
        let mut d: usize = 0;
        while d < 6
            invariant
                d <= 6,
                world.wf(),
                sh == world.shape(),
                emit == standard_emissions(world),
                light@.len() == old(light)@.len(),
                light@.len() == world.blocks@.len(),
                channel(light@, true) == channel(old(light)@, true),
                l == channel(old(light)@, false),
                in_world(sh, relight@),
                out.contains(i as int),
                out.contains(ci),
                sh.has(pos_of(c)),
                ci == sh.place(pos_of(c)),
                first == (v == l[ci]),
                v <= 15,
                darkening(sh, emit, l, channel(light@, false), dark@, places(sh, relight@), out, seen, ci, first),
                first ==> forall|e: int| 0 <= e < d ==> #[trigger] edge(sh, l, places(sh, relight@), out, ci, e),
                v == 0 ==> burdens(dark@) == left,
                v > 0 ==> burdens(dark@) <= left + d * burden(v - 1),
            decreases 6 - d,
        {
            let ghost re0 = places(sh, relight@);
            let ghost out0 = out;
            let ghost f0 = channel(light@, false);
            let found = neighbour_place(world, c, d);
            proof {
                sh.place_round_trip(pos_of(c));
                sh.next_and_back(ci, d as int);
                assert(v > 0 ==> (d + 1) * burden(v - 1) == d * burden(v - 1) + burden(v - 1)) by (nonlinear_arith);
            }
            if let Some(j) = found {
                let step = DIR_STEP[d];
                let n = [c[0] + step[0], c[1] + step[1], c[2] + step[2]];
                assert(pos_of(n) == pos_of(c).step(d as int));
                let nv = low_of(light[j]);
                assert(nv == f0[j as int]);
                assert(j != ci) by {
                    sh.place_round_trip(pos_of(n));
                }
                if nv != 0 && nv < v {
                    let b = set_half(light[j], false, 0);
                    proof {
                        one_cell_changes(light@, j as int, b, false, 0);
                        put_out(sh, emit, l, f0, dark@, re0, out, seen, ci, first, n, nv);
                        burdens_of_pushed(dark@, (n, nv));
                        less_is_less_burden(nv as int, v - 1);
                        out = out.insert(j as int);
                    }
                    light.set(j, b);
                    dark.push_back((n, nv));
                } else if nv >= v {
                    proof {
                        pushed(sh, relight@, n);
                        more_relight(sh, emit, l, f0, dark@, re0, out, seen, ci, first, places(sh, relight@.push(n)));
                    }
                    relight.push_back(n);
                }
            }
            proof {
                if first {
                    assert forall|e: int| 0 <= e < d + 1 implies #[trigger] edge(sh, l, places(sh, relight@), out, ci, e) by {
                        if e < d {
                            assert(edge(sh, l, re0, out0, ci, e));
                        } else if let Some(j) = sh.next(ci, e) {
                            if !out0.contains(j) {
                                assert(f0[j] == l[j]);
                            }
                        }
                    }
                }
            }
            d += 1;
        }
        let e = emission(world.get(c[0], c[1], c[2]));
        let ghost f0 = channel(light@, false);
        let ghost re0 = places(sh, relight@);
        proof {
            sh.place_round_trip(pos_of(c));
            assert(e == emit[ci]);
            assert(v > 0 ==> 6 * burden(v - 1) < burden(v as int));
        }
        if e > 0 {
            let j = world.index(c[0] as usize, c[1] as usize, c[2] as usize);
            let b = set_half(light[j], false, e);
            proof {
                one_cell_changes(light@, j as int, b, false, e as int);
                pushed(sh, relight@, c);
                more_relight(sh, emit, l, f0, dark@, re0, out, seen, ci, first, places(sh, relight@.push(c)));
                if first {
                    assert forall|d: int| 0 <= d < 6 implies #[trigger] edge(
                        sh,
                        l,
                        places(sh, relight@.push(c)),
                        out,
                        ci,
                        d,
                    ) by {
                        assert(edge(sh, l, re0, out, ci, d));
                    }
                }
            }
            light.set(j, b);
            relight.push_back(c);
        }
        proof {
            channel_is_levels(sh, light@, false);
            looked_at(sh, emit, l, f0, channel(light@, false), dark@, places(sh, relight@), out, seen, ci, first);
            if first {
                seen = seen.insert(ci);
            }
        }
    }
    let ghost f1 = channel(light@, false);
    let ghost re = places(sh, relight@);
    let f = Flood { world };
    f.spread(light, relight, false);
    proof {
        assert(dark@ =~= Seq::empty());
        standard_facts(world);
        assert forall|e: int|
            is_block_light(
                sh,
                standard_opacities(world),
                #[trigger] emit.update(i as int, e),
                block_levels(old(light)@),
            ) implies is_block_light(sh, standard_opacities(world), emit, block_levels(light@)) by {
            relighting_settles(sh, standard_losses(world), emit, i as int, e, l, f1, re, out, seen, channel(light@, false));
        }
    }
}

} // verus!
