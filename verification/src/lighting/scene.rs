//! What an edit has to relight.
use vstd::prelude::*;

use crate::lighting::exactness::{edited, one_step_away, steps_away};
use crate::lighting::light_model::{
    block_levels, emissions, is_light, is_opacities, losses, opacities, open_sky, sky_levels, sky_light_is_settled,
    sky_seed, sky_seeds,
};
use crate::lighting::world::{holds, touched, Rules, World};
use crate::voxel::flood::{
    earned, earned_is_no_more, enough, far_cells_keep, incoming, is_drops,
    settled_is_enough_and_earned,
};
use crate::voxel::shape::{Pos, Shape};

verus! {

/// The sections an edit has to relight. Those in `reset` are zeroed first: light can
/// fall only where the new block takes more of it or emits less. A rise needs no
/// reset, since light spreads from what it is.
#[derive(Clone, Debug, PartialEq, Eq)]
pub struct Dirty {
    pub reset: Vec<u32>,
    pub list: Vec<u32>,
}

/// The `k`th of the sections around `c`, in the columns beside it from one above down
/// to the bottom: x slowest, then z, then y from the top.
pub open spec fn column_section(c: Pos, k: int) -> Pos {
    let n = c.y + 2;
    let a = k / n;
    Pos { x: c.x + a / 3 - 1, y: c.y + 1 - k % n, z: c.z + a % 3 - 1 }
}

/// The `k`th of the 27 sections around `c`: x slowest, then y, then z.
pub open spec fn near_section(c: Pos, k: int) -> Pos {
    Pos { x: c.x + k / 9 - 1, y: c.y + (k / 3) % 3 - 1, z: c.z + k % 3 - 1 }
}

/// `before`, and the section at `c` if it is in the world and not there already.
pub open spec fn with_section(sh: Shape, before: Seq<u32>, c: Pos) -> Seq<u32> {
    if sh.has_section(c) && !before.contains(sh.section(c) as u32) {
        before.push(sh.section(c) as u32)
    } else {
        before
    }
}

/// The first `k` sections beside and below `c` that are in the world, each once.
pub open spec fn column_sections(sh: Shape, c: Pos, k: int) -> Seq<u32>
    decreases k,
{
    if k <= 0 {
        Seq::empty()
    } else {
        with_section(sh, column_sections(sh, c, k - 1), column_section(c, k - 1))
    }
}

/// The first `k` sections around `c` that are in the world, each once.
pub open spec fn near_sections(sh: Shape, c: Pos, k: int) -> Seq<u32>
    decreases k,
{
    if k <= 0 {
        Seq::empty()
    } else {
        with_section(sh, near_sections(sh, c, k - 1), near_section(c, k - 1))
    }
}

/// The sections to zero for an edit in the section at `c`: block light reaches 15
/// blocks, so where only the emission falls those around; sky light can run to the
/// bottom of the world, so where the opacity rises those beside and below.
pub open spec fn to_reset(sh: Shape, rules: &Rules, c: Pos, old: u16, new: u16) -> Seq<u32> {
    if rules.takes(new) > rules.takes(old) {
        column_sections(sh, c, 9 * (c.y + 2))
    } else if rules.emits(new) < rules.emits(old) {
        near_sections(sh, c, 27)
    } else {
        Seq::empty()
    }
}

/// The sections that an edit from `old` to `new` at a position has to relight.
pub open spec fn is_dirty(sh: Shape, rules: &Rules, p: Pos, old: u16, new: u16, dirty: Dirty) -> bool {
    let s = sh.section_of(p) as u32;
    &&& dirty.reset@ == to_reset(sh, rules, sh.section_pos_of(p), old, new)
    &&& dirty.list@ == (if dirty.reset@.contains(s) {
        dirty.reset@
    } else {
        dirty.reset@.push(s)
    })
}

/// Adds a section to the list, once.
fn push_section(world: &World, out: &mut Vec<u32>, x: i32, y: i32, z: i32)
    requires
        world.wf(),
    ensures
        final(out)@ == with_section(world.shape(), old(out)@, Pos { x: x as int, y: y as int, z: z as int }),
{
    if let Some(s) = world.section_at(x, y, z) {
        proof {
            world.shape().section_round_trip(Pos { x: x as int, y: y as int, z: z as int });
        }
        if !holds(out, s as u32) {
            out.push(s as u32);
        }
    }
}

/// The sections that an edit from `old` to `new` at a position has to relight.
pub fn dirty_for(world: &World, rules: &Rules, p: [usize; 3], old: u16, new: u16) -> (dirty: Dirty)
    requires
        world.wf(),
        rules.wf(),
        world.shape().has(Pos { x: p[0] as int, y: p[1] as int, z: p[2] as int }),
    ensures
        is_dirty(world.shape(), rules, Pos { x: p[0] as int, y: p[1] as int, z: p[2] as int }, old, new, dirty),
{
    let ghost sh = world.shape();
    let ghost q = Pos { x: p[0] as int, y: p[1] as int, z: p[2] as int };
    let ghost c = sh.section_pos_of(q);
    proof {
        sh.section_of_block(q);
        world.section_number_fits(p[0] / 16, p[1] / 16, p[2] / 16);
    }
    let s = world.section_index(p[0] / 16, p[1] / 16, p[2] / 16) as u32;
    let (sx, sy, sz) = ((p[0] / 16) as i32, (p[1] / 16) as i32, (p[2] / 16) as i32);
    assert(sx <= i32::MAX / 16 && sy <= i32::MAX / 16 && sz <= i32::MAX / 16);
    let mut reset: Vec<u32> = Vec::new();
    if rules.opacity(new) > rules.opacity(old) {
        let n = sy + 2;
        let mut k: i32 = 0;
        while k < 9 * n
            invariant
                0 <= k <= 9 * n,
                n == sy + 2,
                0 <= sx <= i32::MAX / 16,
                0 <= sy <= i32::MAX / 16,
                0 <= sz <= i32::MAX / 16,
                c == (Pos { x: sx as int, y: sy as int, z: sz as int }),
                world.wf(),
                sh == world.shape(),
                reset@ == column_sections(sh, c, k as int),
            decreases 9 * n - k,
        {
            let a = k / n;
            assert(0 <= a < 9 && a == (k as int) / (n as int) && k % n == (k as int) % (n as int)) by (nonlinear_arith)
                requires
                    0 <= k < 9 * n,
                    n > 0,
                    a == k / n,
            ;
            push_section(world, &mut reset, sx + (a / 3 - 1), sy + 1 - k % n, sz + (a % 3 - 1));
            k += 1;
        }
    } else if rules.emission(new) < rules.emission(old) {
        let mut k: i32 = 0;
        while k < 27
            invariant
                0 <= k <= 27,
                0 <= sx <= i32::MAX / 16,
                0 <= sy <= i32::MAX / 16,
                0 <= sz <= i32::MAX / 16,
                c == (Pos { x: sx as int, y: sy as int, z: sz as int }),
                world.wf(),
                sh == world.shape(),
                reset@ == near_sections(sh, c, k as int),
            decreases 27 - k,
        {
            push_section(world, &mut reset, sx + (k / 9 - 1), sy + ((k / 3) % 3 - 1), sz + (k % 3 - 1));
            k += 1;
        }
    }
    let mut list = copied(&reset);
    if !holds(&list, s) {
        list.push(s);
    }
    Dirty { reset, list }
}

/// A world, and the rules of its blocks.
pub struct Scene {
    pub world: World,
    pub rules: Rules,
}

/// What an edit of a scene needs done: the section whose blocks are sent again, the sections
/// to mesh, and the sections to relight.
#[derive(Debug)]
pub struct Edited {
    pub upload: usize,
    pub remesh: Vec<u32>,
    pub dirty: Dirty,
}

impl Scene {
    /// The world and the rules are well.
    pub open spec fn wf(&self) -> bool {
        self.world.wf() && self.rules.wf()
    }

    /// A scene of `world`, with the standard rules.
    pub fn new(world: World) -> (scene: Scene)
        requires
            world.wf(),
        ensures
            scene.wf(),
            scene.world == world,
            scene.rules.is_standard(),
    {
        Scene { world, rules: Rules::standard() }
    }

    /// Changes one block, and says what that needs done.
    pub fn set_block(&mut self, p: [usize; 3], new: u16) -> (edit: Edited)
        requires
            old(self).wf(),
            old(self).world.shape().has(Pos { x: p[0] as int, y: p[1] as int, z: p[2] as int }),
        ensures
            ({
                let sh = old(self).world.shape();
                let q = Pos { x: p[0] as int, y: p[1] as int, z: p[2] as int };
                &&& final(self).wf()
                &&& final(self).rules == old(self).rules
                &&& final(self).world.shape() == sh
                &&& forall|r: Pos| #[trigger]
                    final(self).world.at(r) == (if r == q {
                        new
                    } else {
                        old(self).world.at(r)
                    })
                &&& edit.upload == sh.section_of(q)
                &&& edit.remesh@ == touched(sh, q, 27)
                &&& is_dirty(sh, &old(self).rules, q, old(self).world.at(q), new, edit.dirty)
            }),
    {
        let was = self.world.get(p[0] as i32, p[1] as i32, p[2] as i32);
        self.world.set(p[0], p[1], p[2], new);
        proof {
            self.world.shape().section_of_block(Pos { x: p[0] as int, y: p[1] as int, z: p[2] as int });
            self.world.section_number_fits(p[0] / 16, p[1] / 16, p[2] / 16);
        }
        let upload = self.world.section_index(p[0] / 16, p[1] / 16, p[2] / 16);
        let remesh = self.world.sections_touching(p[0], p[1], p[2]);
        let dirty = dirty_for(&self.world, &self.rules, p, was, new);
        Edited { upload, remesh, dirty }
    }
}

/// A copy of a list.
fn copied(list: &Vec<u32>) -> (out: Vec<u32>)
    ensures
        out@ == list@,
{
    let mut out: Vec<u32> = Vec::new();
    let mut k: usize = 0;
    while k < list.len()
        invariant
            k <= list@.len(),
            out@ == list@.take(k as int),
        decreases list@.len() - k,
    {
        out.push(list[k]);
        assert(out@ =~= list@.take(k + 1));
        k += 1;
    }
    assert(out@ =~= list@);
    out
}

/// Values that start no lower and fall no faster are no less.
proof fn easier_is_no_less(
    sh: Shape,
    seed: Seq<int>,
    drop: Seq<int>,
    f: Seq<int>,
    seed2: Seq<int>,
    drop2: Seq<int>,
    g: Seq<int>,
    i: int,
)
    requires
        sh.wf(),
        is_drops(sh, drop),
        earned(sh, seed, drop, f),
        enough(sh, seed2, drop2, g),
        forall|k: int| 0 <= k < sh.count() ==> #[trigger] seed[k] <= seed2[k],
        forall|k: int| 0 <= k < sh.count() ==> #[trigger] drop[k] >= drop2[k],
        0 <= i < sh.count(),
    ensures
        f[i] <= g[i],
{
    assert forall|k: int| 0 <= k < sh.count() implies #[trigger] g[k] >= seed[k] by {
        assert(seed[k] <= seed2[k]);
    }
    assert forall|k: int, d: int| 0 <= k < sh.count() && 0 <= d < 6 implies g[k] >= #[trigger] incoming(
        sh,
        drop,
        g,
        k,
        d,
    ) by {
        assert(g[k] >= incoming(sh, drop2, g, k, d));
        assert(drop[k] >= drop2[k]);
    }
    earned_is_no_more(sh, seed, drop, f, g, i);
}

/// A list keeps what it holds.
proof fn more_sections(sh: Shape, c: Pos, s: u32, j: int, k: int)
    requires
        0 <= j <= k,
    ensures
        column_sections(sh, c, j).contains(s) ==> column_sections(sh, c, k).contains(s),
        near_sections(sh, c, j).contains(s) ==> near_sections(sh, c, k).contains(s),
    decreases k,
{
    if j < k {
        more_sections(sh, c, s, j, k - 1);
        let a = column_sections(sh, c, k - 1);
        if a.contains(s) {
            let m = a.index_of(s);
            assert(column_sections(sh, c, k)[m] == s);
        }
        let b = near_sections(sh, c, k - 1);
        if b.contains(s) {
            let m = b.index_of(s);
            assert(near_sections(sh, c, k)[m] == s);
        }
    }
}

/// A list holds the section that was last added to it.
proof fn with_section_holds(sh: Shape, before: Seq<u32>, c: Pos)
    requires
        sh.has_section(c),
    ensures
        with_section(sh, before, c).contains(sh.section(c) as u32),
{
    let s = sh.section(c) as u32;
    if !before.contains(s) {
        assert(before.push(s)[before.len() as int] == s);
    }
}

/// The parts of a number counted in columns.
proof fn counted(a: int, n: int, r: int)
    requires
        0 < n,
        0 <= r < n,
        0 <= a < 9,
    ensures
        0 <= a * n + r < 9 * n,
        (a * n + r) / n == a,
        (a * n + r) % n == r,
{
    vstd::arithmetic::div_mod::lemma_fundamental_div_mod_converse(a * n + r, n, a, r);
    assert(0 <= a * n + r < 9 * n) by (nonlinear_arith)
        requires
            0 < n,
            0 <= r < n,
            0 <= a < 9,
    ;
}

/// The sections beside and below hold each section that is.
pub proof fn columns_hold(sh: Shape, c: Pos, q: Pos)
    requires
        sh.has_section(q),
        0 <= c.y,
        -1 <= q.x - c.x <= 1,
        -1 <= q.z - c.z <= 1,
        q.y <= c.y + 1,
    ensures
        column_sections(sh, c, 9 * (c.y + 2)).contains(sh.section(q) as u32),
{
    let n = c.y + 2;
    let a = (q.x - c.x + 1) * 3 + (q.z - c.z + 1);
    let k = a * n + (c.y + 1 - q.y);
    counted(a, n, c.y + 1 - q.y);
    assert(column_section(c, k) == q);
    with_section_holds(sh, column_sections(sh, c, k), q);
    more_sections(sh, c, sh.section(q) as u32, k + 1, 9 * n);
}

/// The sections around hold each section that is.
pub proof fn near_hold(sh: Shape, c: Pos, q: Pos)
    requires
        sh.has_section(q),
        -1 <= q.x - c.x <= 1,
        -1 <= q.y - c.y <= 1,
        -1 <= q.z - c.z <= 1,
    ensures
        near_sections(sh, c, 27).contains(sh.section(q) as u32),
{
    let k = (q.x - c.x + 1) * 9 + (q.y - c.y + 1) * 3 + (q.z - c.z + 1);
    assert(near_section(c, k) == q);
    with_section_holds(sh, near_sections(sh, c, k), q);
    more_sections(sh, c, sh.section(q) as u32, k + 1, 27);
}

/// A block's opacity is a level.
proof fn rules_facts(world: &World, rules: &Rules)
    requires
        world.wf(),
        rules.wf(),
    ensures
        is_opacities(world.shape(), opacities(world, rules)),
        is_drops(world.shape(), losses(opacities(world, rules))),
{
}

/// Where no cell takes more light, no cell's sky seed is lower.
proof fn clearer_sky(sh: Shape, o: Seq<int>, n: Seq<int>, i: int)
    requires
        sh.wf(),
        is_opacities(sh, o),
        is_opacities(sh, n),
        forall|k: int| 0 <= k < sh.count() ==> #[trigger] n[k] <= o[k],
        0 <= i < sh.count(),
    ensures
        sky_seed(sh, o, i) <= sky_seed(sh, n, i),
{
    let p = sh.cell(i);
    sh.cell_round_trip(i);
    assert(n[i] <= o[i]);
    if open_sky(sh, o, p) {
        assert forall|y: int| p.y <= y < sh.ny * 16 implies n[#[trigger] sh.place(Pos { y, ..p })] == 0 by {
            let q = Pos { y, ..p };
            sh.place_round_trip(q);
            assert(o[sh.place(q)] == 0);
            assert(n[sh.place(q)] <= o[sh.place(q)]);
            assert(n[sh.place(q)] >= 0);
        }
        assert(open_sky(sh, n, p));
    }
}

/// A cell beside or above the edited block's column below it has the seed it had.
proof fn sky_seed_away(sh: Shape, o: Seq<int>, n: Seq<int>, p: Pos, i: int)
    requires
        sh.wf(),
        sh.has(p),
        0 <= i < sh.count(),
        forall|k: int| 0 <= k < sh.count() && k != sh.place(p) ==> #[trigger] n[k] == o[k],
        steps_away(p, 0, p.y, sh.cell(i)) >= 1,
    ensures
        sky_seed(sh, o, i) == sky_seed(sh, n, i),
{
    let q = sh.cell(i);
    sh.cell_round_trip(i);
    sh.place_round_trip(p);
    assert(q != p);
    assert forall|y: int| q.y <= y < sh.ny * 16 implies n[#[trigger] sh.place(Pos { y, ..q })] == o[sh.place(
        Pos { y, ..q },
    )] by {
        let r = Pos { y, ..q };
        sh.place_round_trip(r);
        if sh.place(r) == sh.place(p) {
            sh.places_differ(r, p);
        }
    }
    if open_sky(sh, o, q) {
        assert forall|y: int| q.y <= y < sh.ny * 16 implies n[#[trigger] sh.place(Pos { y, ..q })] == 0 by {
            assert(o[sh.place(Pos { y, ..q })] == 0);
        }
    }
    if open_sky(sh, n, q) {
        assert forall|y: int| q.y <= y < sh.ny * 16 implies o[#[trigger] sh.place(Pos { y, ..q })] == 0 by {
            assert(n[sh.place(Pos { y, ..q })] == 0);
        }
    }
}

/// Light falls in the reset sections only: where the light of a cell after an edit is
/// less than before it, of either kind, the cell's section is one that the edit resets.
pub proof fn falls_are_reset(
    before: &World,
    after: &World,
    rules: &Rules,
    p: Pos,
    light: Seq<u8>,
    light2: Seq<u8>,
    i: int,
)
    requires
        edited(before, after, p),
        rules.wf(),
        is_light(before.shape(), opacities(before, rules), emissions(before, rules), light),
        is_light(after.shape(), opacities(after, rules), emissions(after, rules), light2),
        0 <= i < after.shape().count(),
        block_levels(light2)[i] < block_levels(light)[i] || sky_levels(light2)[i] < sky_levels(light)[i],
    ensures
        to_reset(after.shape(), rules, after.shape().section_pos_of(p), before.at(p), after.at(p)).contains(
            (i / 4096) as u32,
        ),
{
    let sh = after.shape();
    let (o, n) = (opacities(before, rules), opacities(after, rules));
    let (e, e2) = (emissions(before, rules), emissions(after, rules));
    let (b, b2) = (block_levels(light), block_levels(light2));
    let (s, s2) = (sky_levels(light), sky_levels(light2));
    let c = sh.section_pos_of(p);
    let q = sh.cell(i);
    let at = sh.place(p);
    rules_facts(before, rules);
    rules_facts(after, rules);
    sh.place_round_trip(p);
    sh.cell_round_trip(i);
    sh.section_of_block(q);
    sh.section_of_block(p);
    sky_light_is_settled(sh, o, s);
    sky_light_is_settled(sh, n, s2);
    settled_is_enough_and_earned(sh, e, losses(o), b);
    settled_is_enough_and_earned(sh, e2, losses(n), b2);
    settled_is_enough_and_earned(sh, sky_seeds(sh, o), losses(o), s);
    settled_is_enough_and_earned(sh, sky_seeds(sh, n), losses(n), s2);
    assert forall|k: int| 0 <= k < sh.count() && k != at implies #[trigger] n[k] == o[k] && e2[k] == e[k] by {}
    let rises = rules.takes(after.at(p)) > rules.takes(before.at(p));
    let dims = rules.emits(after.at(p)) < rules.emits(before.at(p));
    assert(n[at] == rules.takes(after.at(p)) && o[at] == rules.takes(before.at(p)));
    assert(e2[at] == rules.emits(after.at(p)) && e[at] == rules.emits(before.at(p)));
    let near = |k: int| steps_away(p, p.y, p.y, sh.cell(k));
    let below = |k: int| steps_away(p, 0, p.y, sh.cell(k));
    if b2[i] < b[i] {
        if !rises && !dims {
            easier_is_no_less(sh, e, losses(o), b, e2, losses(n), b2, i);
        }
        if near(i) >= 16 - b[i] {
            assert forall|k: int| 0 <= k < sh.count() && #[trigger] near(k) >= 1 implies e[k] == e2[k] && losses(o)[k]
                == losses(n)[k] by {
                assert(k != at);
                assert(n[k] == o[k]);
            }
            assert forall|k: int, d: int| 0 <= k < sh.count() && 0 <= d < 6 implies match #[trigger] sh.next(k, d) {
                Some(j) => near(j) >= near(k) - 1,
                None => true,
            } by {
                sh.next_and_back(k, d);
                one_step_away(p, p.y, p.y, sh.cell(k), d);
            }
            far_cells_keep(sh, e, losses(o), b, e2, losses(n), b2, near, i);
        }
        assert(near(i) <= 15);
        assert(-15 <= q.x - p.x <= 15 && -15 <= q.y - p.y <= 15 && -15 <= q.z - p.z <= 15);
    } else {
        if !rises {
            assert forall|k: int| 0 <= k < sh.count() implies #[trigger] sky_seeds(sh, o)[k] <= sky_seeds(sh, n)[k] by {
                clearer_sky(sh, o, n, k);
            }
            easier_is_no_less(sh, sky_seeds(sh, o), losses(o), s, sky_seeds(sh, n), losses(n), s2, i);
        }
        if below(i) >= 16 - s[i] {
            assert forall|k: int| 0 <= k < sh.count() && #[trigger] below(k) >= 1 implies sky_seeds(sh, o)[k] == sky_seeds(
                sh,
                n,
            )[k] && losses(o)[k] == losses(n)[k] by {
                sky_seed_away(sh, o, n, p, k);
                assert(k != at);
                assert(n[k] == o[k]);
            }
            assert forall|k: int, d: int| 0 <= k < sh.count() && 0 <= d < 6 implies match #[trigger] sh.next(k, d) {
                Some(j) => below(j) >= below(k) - 1,
                None => true,
            } by {
                sh.next_and_back(k, d);
                one_step_away(p, 0, p.y, sh.cell(k), d);
            }
            far_cells_keep(sh, sky_seeds(sh, o), losses(o), s, sky_seeds(sh, n), losses(n), s2, below, i);
        }
        assert(below(i) <= 15);
        assert(-15 <= q.x - p.x <= 15 && q.y - p.y <= 15 && -15 <= q.z - p.z <= 15);
    }
    if rises {
        columns_hold(sh, c, sh.section_pos_of(q));
    } else {
        near_hold(sh, c, sh.section_pos_of(q));
    }
}

} // verus!
