//! Block light and sky light of a whole world, and the smooth lighting and ambient
//! occlusion of a face's corners.
use vstd::prelude::*;

use crate::lighting::light_model::{
    block_levels, emissions, is_light, is_opacities, losses, opacities, open_sky, open_sky_step, sky_levels,
    sky_light_is_settled, sky_seed, sky_seeds,
};
use crate::lighting::face::{DIR_U, DIR_V};
use crate::lighting::world::{Rules, World, CLASS_OPAQUE};
use crate::voxel::flood::{
    active, flood_from_seeds_settles, flooded, flooding, is_drops, is_levels, max, raise, raised_by, room, spent,
};
use crate::voxel::nibble::{high, high_of, join, low, low_of};
use crate::voxel::shape::{pos_of, Pos, Shape, DIR_STEP};

verus! {

/// One byte per block, stored like the blocks: sky light in the high half, block
/// light in the low half.
pub struct Light {
    pub data: Vec<u8>,
}

impl Light {
    /// There is one byte for each cell of the world.
    pub open spec fn fits(&self, world: &World) -> bool {
        world.wf() && self.data@.len() == world.blocks@.len()
    }

    /// The byte at a position: the sky, 15, above the world, and 0 elsewhere outside.
    pub open spec fn at(&self, world: &World, p: Pos) -> u8 {
        let sh = world.shape();
        if sh.has(p) {
            self.data@[sh.place(p)]
        } else if p.y >= sh.ny * 16 && sh.has(Pos { y: 0, ..p }) {
            240
        } else {
            0
        }
    }

    /// The sky light at a position.
    pub fn sky(&self, world: &World, x: i32, y: i32, z: i32) -> (v: u8)
        requires
            self.fits(world),
        ensures
            v == high(self.at(world, Pos { x: x as int, y: y as int, z: z as int })),
    {
        high_of(self.get(world, x, y, z))
    }

    /// The block light at a position.
    pub fn block(&self, world: &World, x: i32, y: i32, z: i32) -> (v: u8)
        requires
            self.fits(world),
        ensures
            v == low(self.at(world, Pos { x: x as int, y: y as int, z: z as int })),
    {
        low_of(self.get(world, x, y, z))
    }

    /// The byte at a position: the sky, 15, above the world, and 0 elsewhere outside.
    pub fn get(&self, world: &World, x: i32, y: i32, z: i32) -> (b: u8)
        requires
            self.fits(world),
        ensures
            b == self.at(world, Pos { x: x as int, y: y as int, z: z as int }),
    {
        if world.in_bounds(x, y, z) {
            self.data[world.index(x as usize, y as usize, z as usize)]
        } else if y >= world.size_blocks()[1] as i32 && world.in_bounds(x, 0, z) {
            240
        } else {
            0
        }
    }

    /// Cells whose light differs, as position, this light's byte and the other's, in
    /// order of y, then z, then x.
    pub fn diff(&self, other: &Light, world: &World) -> (out: Vec<(i32, i32, i32, u8, u8)>)
        requires
            self.fits(world),
            other.fits(world),
        ensures
            out@ == differences(world.shape(), self.data@, other.data@, world.shape().ny * 16, 0, 0),
    {
        let size = world.size_blocks();
        let ghost sh = world.shape();
        let mut out: Vec<(i32, i32, i32, u8, u8)> = Vec::new();
        let mut y: usize = 0;
        while y < size[1]
            invariant
                y <= size[1],
                size[0] == sh.nx * 16,
                size[1] == sh.ny * 16,
                size[2] == sh.nz * 16,
                sh == world.shape(),
                self.fits(world),
                other.fits(world),
                out@ == differences(sh, self.data@, other.data@, y as int, 0, 0),
            decreases size[1] - y,
        {
            let mut z: usize = 0;
            while z < size[2]
                invariant
                    z <= size[2],
                    y < size[1],
                    size[0] == sh.nx * 16,
                    size[1] == sh.ny * 16,
                    size[2] == sh.nz * 16,
                    sh == world.shape(),
                    self.fits(world),
                    other.fits(world),
                    out@ == differences(sh, self.data@, other.data@, y as int, z as int, 0),
                decreases size[2] - z,
            {
                let mut x: usize = 0;
                while x < size[0]
                    invariant
                        x <= size[0],
                        y < size[1],
                        z < size[2],
                        size[0] == sh.nx * 16,
                        size[1] == sh.ny * 16,
                        size[2] == sh.nz * 16,
                        sh == world.shape(),
                        self.fits(world),
                        other.fits(world),
                        out@ == differences(sh, self.data@, other.data@, y as int, z as int, x as int),
                    decreases size[0] - x,
                {
                    let i = world.index(x, y, z);
                    if self.data[i] != other.data[i] {
                        out.push((x as i32, y as i32, z as i32, self.data[i], other.data[i]));
                    }
                    x += 1;
                }
                z += 1;
            }
            y += 1;
        }
        out
    }
}

/// Where two lights differ among the cells before `(y, z, x)`, in order of y, then
/// z, then x. An `x` of 0 stands for the end of the row before, and so on.
pub open spec fn differences(sh: Shape, a: Seq<u8>, b: Seq<u8>, y: int, z: int, x: int) -> Seq<(i32, i32, i32, u8, u8)>
    decreases y, z, x,
{
    if x > 0 {
        let before = differences(sh, a, b, y, z, x - 1);
        let i = sh.place(Pos { x: x - 1, y, z });
        if a[i] != b[i] {
            before.push(((x - 1) as i32, y as i32, z as i32, a[i], b[i]))
        } else {
            before
        }
    } else if z > 0 {
        differences(sh, a, b, y, z - 1, sh.nx * 16)
    } else if y > 0 {
        differences(sh, a, b, y - 1, sh.nz * 16, 0)
    } else {
        Seq::empty()
    }
}

/// The values of some bytes.
pub open spec fn levels_of(v: Seq<u8>) -> Seq<int> {
    Seq::new(v.len(), |i: int| v[i] as int)
}

/// Cells to visit, by level. The highest level comes first.
pub struct Buckets {
    levels: Vec<Vec<usize>>,
}

/// The number of entries of some lists.
pub open spec fn entries(levels: Seq<Vec<usize>>) -> nat
    decreases levels.len(),
{
    if levels.len() == 0 {
        0
    } else {
        entries(levels.drop_last()) + levels.last()@.len()
    }
}

proof fn entries_update(levels: Seq<Vec<usize>>, l: int, v: Vec<usize>)
    requires
        0 <= l < levels.len(),
    ensures
        entries(levels.update(l, v)) == entries(levels) - levels[l]@.len() + v@.len(),
    decreases levels.len(),
{
    let after = levels.update(l, v);
    if l == levels.len() - 1 {
        assert(after.drop_last() =~= levels.drop_last());
    } else {
        assert(after.drop_last() =~= levels.drop_last().update(l, v));
        entries_update(levels.drop_last(), l, v);
    }
}

impl Buckets {
    /// There is a bucket for each level.
    pub closed spec fn wf(&self) -> bool {
        self.levels@.len() == 16
    }

    /// The cells of a level, last visited first.
    pub closed spec fn at(&self, l: int) -> Seq<usize> {
        self.levels@[l]@
    }

    /// The number of entries.
    pub closed spec fn size(&self) -> nat {
        entries(self.levels@)
    }

    /// Empty buckets.
    pub fn new() -> (q: Buckets)
        ensures
            q.wf(),
            forall|l: int| 0 <= l < 16 ==> #[trigger] q.at(l) == Seq::<usize>::empty(),
    {
        let mut levels: Vec<Vec<usize>> = Vec::new();
        let mut l: usize = 0;
        while l < 16
            invariant
                l <= 16,
                levels@.len() == l,
                forall|i: int| 0 <= i < l ==> (#[trigger] levels@[i])@ == Seq::<usize>::empty(),
            decreases 16 - l,
        {
            levels.push(Vec::new());
            l += 1;
        }
        Buckets { levels }
    }

    /// Adds a cell to a level.
    pub fn push(&mut self, level: u8, i: usize)
        requires
            old(self).wf(),
            level < 16,
        ensures
            final(self).wf(),
            final(self).at(level as int) == old(self).at(level as int).push(i),
            forall|l: int| 0 <= l < 16 && l != level ==> #[trigger] final(self).at(l) == old(self).at(l),
            final(self).size() == old(self).size() + 1,
    {
        let ghost before = self.levels@;
        let mut bucket: Vec<usize> = Vec::new();
        std::mem::swap(&mut self.levels[level as usize], &mut bucket);
        bucket.push(i);
        let ghost full = bucket;
        std::mem::swap(&mut self.levels[level as usize], &mut bucket);
        proof {
            assert(self.levels@ =~= before.update(level as int, full));
            entries_update(before, level as int, full);
        }
    }

    /// Takes the last cell of the highest level, above 0, that has any.
    pub fn pop(&mut self) -> (out: Option<(u8, usize)>)
        requires
            old(self).wf(),
        ensures
            final(self).wf(),
            match out {
                Some((l, i)) => {
                    &&& 1 <= l < 16
                    &&& forall|m: int| l < m < 16 ==> (#[trigger] old(self).at(m)).len() == 0
                    &&& old(self).at(l as int) == final(self).at(l as int).push(i)
                    &&& forall|m: int| 0 <= m < 16 && m != l ==> #[trigger] final(self).at(m) == old(self).at(m)
                    &&& final(self).size() == old(self).size() - 1
                },
                None => {
                    &&& *final(self) == *old(self)
                    &&& forall|m: int| 1 <= m < 16 ==> (#[trigger] old(self).at(m)).len() == 0
                },
            },
    {
        let mut l: u8 = 16;
        while l > 1
            invariant
                1 <= l <= 16,
                self.wf(),
                *self == *old(self),
                forall|m: int| l <= m < 16 ==> (#[trigger] self.at(m)).len() == 0,
            decreases l,
        {
            l -= 1;
            if self.levels[l as usize].len() > 0 {
                let ghost before = self.levels@;
                let mut bucket: Vec<usize> = Vec::new();
                std::mem::swap(&mut self.levels[l as usize], &mut bucket);
                let ghost full = bucket@;
                let top = bucket.pop();
                let ghost rest = bucket;
                std::mem::swap(&mut self.levels[l as usize], &mut bucket);
                proof {
                    assert(self.levels@ =~= before.update(l as int, rest));
                    entries_update(before, l as int, rest);
                    assert(full =~= rest@.push(full.last()));
                }
                match top {
                    Some(i) => {
                        return Some((l, i));
                    },
                    None => {
                        assert(false);
                    },
                }
            }
        }
        None
    }
}

/// The position of the cell at a place.
pub(crate) fn coords(world: &World, i: usize) -> (p: [i32; 3])
    requires
        world.wf(),
        i < world.blocks@.len(),
    ensures
        pos_of(p) == world.shape().cell(i as int),
        world.shape().has(pos_of(p)),
{
    proof {
        world.shape().cell_round_trip(i as int);
        reveal(Shape::cell);
    }
    let c = world.section_coords(i / 4096);
    let r = i % 4096;
    let p = [
        (c[0] * 16 + r % 16) as i32,
        (c[1] * 16 + r / 256) as i32,
        (c[2] * 16 + (r / 16) % 16) as i32,
    ];
    p
}

/// The place of the neighbour in direction `d`, if it is in the world.
pub(crate) fn neighbour_place(world: &World, p: [i32; 3], d: usize) -> (j: Option<usize>)
    requires
        world.wf(),
        world.shape().has(pos_of(p)),
        d < 6,
    ensures
        match j {
            Some(j) => world.shape().next(world.shape().place(pos_of(p)), d as int) == Some(j as int) && j < world.blocks@.len(),
            None => world.shape().next(world.shape().place(pos_of(p)), d as int) is None,
        },
{
    proof {
        world.shape().place_round_trip(pos_of(p));
    }
    let step = DIR_STEP[d];
    let (x, y, z) = (p[0] + step[0], p[1] + step[1], p[2] + step[2]);
    if world.in_bounds(x, y, z) {
        Some(world.index(x as usize, y as usize, z as usize))
    } else {
        None
    }
}

/// The cells that have a value.
pub open spec fn lit(g: Seq<int>) -> Set<int> {
    Set::new(|i: int| 0 <= i < g.len() && g[i] > 0)
}

/// Cell `j` is to be visited at its level.
pub open spec fn queued(q: &Buckets, f: Seq<int>, j: int) -> bool {
    q.at(f[j]).contains(j as usize)
}

/// Each cell that may raise a neighbour is queued, or raises none.
pub open spec fn watched(sh: Shape, drop: Seq<int>, g: Seq<int>, f: Seq<int>, q: &Buckets, but: int) -> bool {
    forall|j: int|
        0 <= j < sh.count() && j != but && #[trigger] active(lit(g), g, f, j) ==> queued(q, f, j) || spent(sh, drop, f, j)
}

/// The entries are cells.
pub open spec fn entries_are_cells(sh: Shape, q: &Buckets) -> bool {
    forall|l: int, k: int| 0 <= l < 16 && 0 <= k < q.at(l).len() ==> #[trigger] q.at(l)[k] < sh.count()
}

/// Floods `level` from every cell that has any, by descending level. `loss` is what
/// each cell takes.
fn flood_levels(world: &World, loss: &Vec<u8>, level: &mut Vec<u8>, q: &mut Buckets)
    requires
        world.wf(),
        old(q).wf(),
        entries_are_cells(world.shape(), old(q)),
        is_drops(world.shape(), levels_of(loss@)),
        is_levels(world.shape(), levels_of(old(level)@)),
        forall|i: int| 0 <= i < old(level)@.len() && #[trigger] old(level)@[i] > 0 ==> old(q).at(old(level)@[i] as int).contains(i as usize),
    ensures
        flooded(
            world.shape(),
            levels_of(loss@),
            lit(levels_of(old(level)@)),
            levels_of(old(level)@),
            levels_of(final(level)@),
        ),
{
    let ghost sh = world.shape();
    let ghost drop = levels_of(loss@);
    let ghost g = levels_of(level@);
    assert(watched(sh, drop, g, g, q, -1)) by {
        assert forall|j: int| 0 <= j < sh.count() && #[trigger] active(lit(g), g, g, j) implies queued(q, g, j) by {
            assert(level@[j] > 0);
        }
    }
    assert forall|i: int| 0 <= i < sh.count() implies #[trigger] raised_by(sh, drop, lit(g), g, g, i) by {}
    loop
        invariant
            world.wf(),
            sh == world.shape(),
            drop == levels_of(loss@),
            is_drops(sh, drop),
            q.wf(),
            entries_are_cells(sh, q),
            flooding(sh, drop, lit(g), g, levels_of(level@)),
            watched(sh, drop, g, levels_of(level@), q, -1),
        ensures
            flooding(sh, drop, lit(g), g, levels_of(level@)),
            forall|j: int|
                0 <= j < sh.count() && active(lit(g), g, levels_of(level@), j) ==> #[trigger] spent(sh, drop, levels_of(level@), j),
        decreases 2 * room(levels_of(level@)) + q.size(),
    {
        let ghost before = *q;
        let ghost f0 = levels_of(level@);
        let (l, i) = match q.pop() {
            Some(e) => e,
            None => {
                proof {
                    assert forall|j: int| 0 <= j < sh.count() && active(lit(g), g, f0, j) implies #[trigger] spent(sh, drop, f0, j) by {
                        assert(f0[j] >= g[j]);
                        assert(1 <= f0[j] < 16);
                        assert(q.at(f0[j]).len() == 0);
                    }
                }
                break;
            },
        };
        proof {
            assert(before.at(l as int)[before.at(l as int).len() - 1] == i);
            assert(sh.count() == world.blocks.len());
            assert(entries_are_cells(sh, q)) by {
                assert forall|m: int, k: int| 0 <= m < 16 && 0 <= k < q.at(m).len() implies #[trigger] q.at(m)[k] < sh.count() by {
                    assert(q.at(m)[k] == before.at(m)[k]);
                }
            }
            assert forall|j: int| 0 <= j < sh.count() && (j != i || f0[j] != l) && #[trigger] active(lit(g), g, f0, j) implies queued(q, f0, j)
                || spent(sh, drop, f0, j) by {
                if queued(&before, f0, j) {
                    let k = choose|k: int| 0 <= k < before.at(f0[j]).len() && before.at(f0[j])[k] == j as usize;
                    if f0[j] == l {
                        if k < q.at(l as int).len() {
                            assert(q.at(l as int)[k] == j as usize);
                        }
                    }
                }
            }
        }
        if level[i] == l {
            let p = coords(world, i);
            proof {
                sh.cell_round_trip(i as int);
                assert(watched(sh, drop, g, levels_of(level@), q, i as int));
            }
            let mut d: usize = 0;
            while d < 6
                invariant
                    d <= 6,
                    world.wf(),
                    sh == world.shape(),
                    drop == levels_of(loss@),
                    is_drops(sh, drop),
                    q.wf(),
                    1 <= l < 16,
                    i < sh.count(),
                    pos_of(p) == sh.cell(i as int),
                    sh.has(pos_of(p)),
                    sh.place(pos_of(p)) == i,
                    entries_are_cells(sh, q),
                    level@.len() == sh.count(),
                    level@[i as int] == l,
                    flooding(sh, drop, lit(g), g, levels_of(level@)),
                    watched(sh, drop, g, levels_of(level@), q, i as int),
                    forall|e: int|
                        0 <= e < d ==> match #[trigger] sh.next(i as int, e) {
                            Some(j) => level@[j] >= l - drop[j],
                            None => true,
                        },
                    2 * room(levels_of(level@)) + q.size() < 2 * room(f0) + before.size(),
                decreases 6 - d,
            {
                let ghost held = level@;
                match neighbour_place(world, p, d) {
                    Some(j) => {
                        let cost = loss[j];
                        let nl: u8 = if l > cost {
                            l - cost
                        } else {
                            0
                        };
                        if nl > level[j] {
                            let ghost f = levels_of(level@);
                            let ghost q0 = *q;
                            proof {
                                assert(drop[j as int] == cost);
                                if f[i as int] == g[i as int] {
                                    assert(lit(g).contains(i as int));
                                }
                                raise(sh, drop, lit(g), g, f, i as int, d as int, j as int, nl as int);
                            }
                            level.set(j, nl);
                            q.push(nl, j);
                            proof {
                                let h = levels_of(level@);
                                assert(h =~= f.update(j as int, nl as int));
                                assert(q.at(nl as int)[q0.at(nl as int).len() as int] == j);
                                assert(entries_are_cells(sh, q)) by {
                                    assert forall|m: int, k: int| 0 <= m < 16 && 0 <= k < q.at(m).len() implies #[trigger] q.at(m)[k]
                                        < sh.count() by {
                                        if m == nl && k == q0.at(m).len() {
                                        } else {
                                            assert(q.at(m)[k] == q0.at(m)[k]);
                                        }
                                    }
                                }
                                assert forall|k: int| 0 <= k < sh.count() && k != i && #[trigger] active(lit(g), g, h, k) implies queued(
                                    q,
                                    h,
                                    k,
                                ) || spent(sh, drop, h, k) by {
                                    if k == j {
                                        assert(queued(q, h, k));
                                    } else {
                                        assert(active(lit(g), g, f, k));
                                        if queued(&q0, f, k) {
                                            let m = choose|m: int| 0 <= m < q0.at(f[k]).len() && q0.at(f[k])[m] == k as usize;
                                            assert(q.at(f[k])[m] == k as usize);
                                        }
                                    }
                                }
                            }
                        }
                    },
                    None => {},
                }
                proof {
                    assert forall|e: int| 0 <= e < d + 1 implies (match #[trigger] sh.next(i as int, e) {
                        Some(j) => level@[j] >= l - drop[j],
                        None => true,
                    }) by {
                        sh.next_and_back(i as int, e);
                        match sh.next(i as int, e) {
                            Some(m) => {
                                assert(level@[m] >= held[m]);
                                assert(drop[m] == loss@[m]);
                            },
                            None => {},
                        }
                    }
                }
                d += 1;
            }
            proof {
                let h = levels_of(level@);
                assert(spent(sh, drop, h, i as int)) by {
                    assert forall|e: int| 0 <= e < 6 implies (match #[trigger] sh.next(i as int, e) {
                        Some(j) => h[j] >= h[i as int] - drop[j],
                        None => true,
                    }) by {
                        sh.next_and_back(i as int, e);
                    }
                }
            }
        }
    }
}

/// Buckets that hold every cell that has a value, at its level.
fn queue_lit(level: &Vec<u8>) -> (q: Buckets)
    requires
        forall|i: int| 0 <= i < level@.len() ==> #[trigger] level@[i] <= 15,
    ensures
        q.wf(),
        forall|l: int, k: int| 0 <= l < 16 && 0 <= k < q.at(l).len() ==> #[trigger] q.at(l)[k] < level@.len(),
        forall|i: int| 0 <= i < level@.len() && #[trigger] level@[i] > 0 ==> q.at(level@[i] as int).contains(i as usize),
{
    let mut q = Buckets::new();
    let mut i: usize = 0;
    while i < level.len()
        invariant
            i <= level@.len(),
            q.wf(),
            forall|i: int| 0 <= i < level@.len() ==> #[trigger] level@[i] <= 15,
            forall|l: int, k: int| 0 <= l < 16 && 0 <= k < q.at(l).len() ==> #[trigger] q.at(l)[k] < level@.len(),
            forall|j: int| 0 <= j < i && #[trigger] level@[j] > 0 ==> q.at(level@[j] as int).contains(j as usize),
        decreases level@.len() - i,
    {
        let l = level[i];
        if l > 0 {
            let ghost before = q;
            q.push(l, i);
            proof {
                assert(q.at(l as int)[before.at(l as int).len() as int] == i);
                assert forall|m: int, k: int| 0 <= m < 16 && 0 <= k < q.at(m).len() implies #[trigger] q.at(m)[k] < level@.len() by {
                    if m == l && k == before.at(m).len() {
                    } else {
                        assert(q.at(m)[k] == before.at(m)[k]);
                    }
                }
                assert forall|j: int| 0 <= j < i + 1 && #[trigger] level@[j] > 0 implies q.at(level@[j] as int).contains(j as usize) by {
                    if j < i {
                        let m = level@[j] as int;
                        let k = choose|k: int| 0 <= k < before.at(m).len() && before.at(m)[k] == j as usize;
                        assert(q.at(m)[k] == j as usize);
                    }
                }
            }
        }
        i += 1;
    }
    q
}

/// What each cell has of the sky's light before any floods.
pub(crate) fn sky_seed_levels(world: &World, opac: &Vec<u8>) -> (level: Vec<u8>)
    requires
        world.wf(),
        is_opacities(world.shape(), levels_of(opac@)),
    ensures
        levels_of(level@) == sky_seeds(world.shape(), levels_of(opac@)),
{
    let ghost sh = world.shape();
    let ghost op = levels_of(opac@);
    let size = world.size_blocks();
    let mut level: Vec<u8> = vec![0u8; world.blocks.len()];
    let mut x: usize = 0;
    while x < size[0]
        invariant
            x <= size[0],
            size[0] == sh.nx * 16,
            size[1] == sh.ny * 16,
            size[2] == sh.nz * 16,
            world.wf(),
            sh == world.shape(),
            op == levels_of(opac@),
            is_opacities(sh, op),
            level@.len() == sh.count(),
            forall|p: Pos| #[trigger] sh.has(p) && p.x < x ==> level@[sh.place(p)] == sky_seed(sh, op, sh.place(p)),
        decreases size[0] - x,
    {
        let mut z: usize = 0;
        while z < size[2]
            invariant
                x < size[0],
                z <= size[2],
                size[0] == sh.nx * 16,
                size[1] == sh.ny * 16,
                size[2] == sh.nz * 16,
                world.wf(),
                sh == world.shape(),
                op == levels_of(opac@),
                is_opacities(sh, op),
                level@.len() == sh.count(),
                forall|p: Pos| #[trigger]
                    sh.has(p) && (p.x < x || (p.x == x && p.z < z)) ==> level@[sh.place(p)] == sky_seed(sh, op, sh.place(p)),
            decreases size[2] - z,
        {
            let mut y: usize = size[1];
            let mut open = true;
            while y > 0
                invariant
                    x < size[0],
                    z < size[2],
                    y <= size[1],
                    size[0] == sh.nx * 16,
                    size[1] == sh.ny * 16,
                    size[2] == sh.nz * 16,
                    world.wf(),
                    sh == world.shape(),
                    op == levels_of(opac@),
                    is_opacities(sh, op),
                    level@.len() == sh.count(),
                    open == open_sky(sh, op, Pos { x: x as int, y: y as int, z: z as int }),
                    forall|p: Pos| #[trigger]
                        sh.has(p) && (p.x < x || (p.x == x && p.z < z) || (p.x == x && p.z == z && p.y >= y)) ==> level@[sh.place(p)]
                            == sky_seed(sh, op, sh.place(p)),
                decreases y,
            {
                y -= 1;
                let ghost p = Pos { x: x as int, y: y as int, z: z as int };
                let ghost held = level@;
                let i = world.index(x, y, z);
                proof {
                    sh.place_round_trip(p);
                    open_sky_step(sh, op, p);
                    assert(p.step(3) == (Pos { x: x as int, y: y + 1, z: z as int }));
                }
                let o = opac[i];
                open = open && o == 0;
                let v: u8 = if open {
                    15
                } else if y + 1 == size[1] {
                    let loss: u8 = if o > 1 {
                        o
                    } else {
                        1
                    };
                    15 - loss
                } else {
                    0
                };
                level.set(i, v);
                proof {
                    assert forall|q: Pos| #[trigger]
                        sh.has(q) && (q.x < x || (q.x == x && q.z < z) || (q.x == x && q.z == z && q.y >= y)) implies level@[sh.place(q)]
                        == sky_seed(sh, op, sh.place(q)) by {
                        sh.place_round_trip(q);
                        if q == p {
                        } else {
                            if sh.place(q) == sh.place(p) {
                                sh.places_differ(p, q);
                            }
                            assert(level@[sh.place(q)] == held[sh.place(q)]);
                        }
                    }
                }
            }
            z += 1;
        }
        x += 1;
    }
    proof {
        assert forall|i: int| 0 <= i < sh.count() implies levels_of(level@)[i] == sky_seeds(sh, op)[i] by {
            sh.cell_round_trip(i);
            assert(sh.has(sh.cell(i)));
        }
        assert(levels_of(level@) =~= sky_seeds(sh, op));
    }
    level
}

/// The larger of a loss and 1, for each cell.
pub(crate) fn loss_levels(opac: &Vec<u8>) -> (loss: Vec<u8>)
    ensures
        levels_of(loss@) == losses(levels_of(opac@)),
{
    let mut loss: Vec<u8> = Vec::new();
    let mut i: usize = 0;
    while i < opac.len()
        invariant
            i <= opac@.len(),
            loss@.len() == i,
            forall|j: int| 0 <= j < i ==> #[trigger] loss@[j] == max(1, opac@[j] as int),
        decreases opac@.len() - i,
    {
        loss.push(
            if opac[i] > 1 {
                opac[i]
            } else {
                1
            },
        );
        i += 1;
    }
    assert(levels_of(loss@) =~= losses(levels_of(opac@)));
    loss
}

/// Block light and sky light for the whole world, from scratch.
pub fn compute(world: &World, rules: &Rules) -> (light: Light)
    requires
        world.wf(),
        rules.wf(),
    ensures
        light.fits(world),
        is_light(world.shape(), opacities(world, rules), emissions(world, rules), light.data@),
{
    let ghost sh = world.shape();
    let n = world.blocks.len();
    let mut opac: Vec<u8> = Vec::new();
    let mut block: Vec<u8> = Vec::new();
    let mut i: usize = 0;
    while i < n
        invariant
            i <= n,
            n == world.blocks@.len(),
            rules.wf(),
            opac@.len() == i,
            block@.len() == i,
            forall|j: int| 0 <= j < i ==> #[trigger] opac@[j] == rules.takes(world.blocks@[j]) && opac@[j] <= 15,
            forall|j: int| 0 <= j < i ==> #[trigger] block@[j] == rules.emits(world.blocks@[j]) && block@[j] <= 15,
        decreases n - i,
    {
        opac.push(rules.opacity(world.blocks[i]));
        block.push(rules.emission(world.blocks[i]));
        i += 1;
    }
    let ghost op = levels_of(opac@);
    let ghost emit = levels_of(block@);
    assert(op =~= opacities(world, rules));
    assert(emit =~= emissions(world, rules));
    let loss = loss_levels(&opac);
    let ghost drop = levels_of(loss@);
    assert(is_drops(sh, drop));

    // Block light.
    let mut q = queue_lit(&block);
    flood_levels(world, &loss, &mut block, &mut q);
    proof {
        flood_from_seeds_settles(sh, emit, drop, lit(emit), levels_of(block@));
    }

    // Sky light.
    let mut sky = sky_seed_levels(world, &opac);
    let ghost seeds = levels_of(sky@);
    proof {
        assert(seeds.len() == sh.count());
        assert(sky@.len() == seeds.len());
        assert forall|i: int| 0 <= i < sky@.len() implies #[trigger] sky@[i] <= 15 by {
            assert(seeds[i] == sky_seeds(sh, op)[i]);
            assert(levels_of(sky@)[i] == sky_seed(sh, op, i));
        }
    }
    let mut q = queue_lit(&sky);
    flood_levels(world, &loss, &mut sky, &mut q);
    proof {
        flood_from_seeds_settles(sh, seeds, drop, lit(seeds), levels_of(sky@));
        sky_light_is_settled(sh, op, levels_of(sky@));
    }

    let mut data: Vec<u8> = Vec::new();
    let mut i: usize = 0;
    while i < n
        invariant
            i <= n,
            block@.len() == n,
            sky@.len() == n,
            is_levels(sh, levels_of(block@)),
            is_levels(sh, levels_of(sky@)),
            sh.count() == n,
            data@.len() == i,
            forall|j: int| 0 <= j < i ==> low(#[trigger] data@[j]) == block@[j] && high(data@[j]) == sky@[j],
        decreases n - i,
    {
        assert(levels_of(block@)[i as int] <= 15);
        assert(levels_of(sky@)[i as int] <= 15);
        data.push(join(sky[i], block[i]));
        i += 1;
    }
    assert(block_levels(data@) =~= levels_of(block@));
    assert(sky_levels(data@) =~= levels_of(sky@));
    Light { data }
}

/// What the smooth-lighting rule gives one corner of one face: the corner's sky and
/// block light, from 0 to 15, and how many blocks occlude it, from 0 to 3.
#[derive(Clone, Copy, Debug, PartialEq, Eq, Structural)]
pub struct Corner {
    pub sky: u8,
    pub block: u8,
    pub occluders: u8,
}

/// `p` moved along an axis.
pub open spec fn shifted(p: Pos, axis: int, by: int) -> Pos {
    if axis == 0 {
        Pos { x: p.x + by, ..p }
    } else if axis == 1 {
        Pos { y: p.y + by, ..p }
    } else {
        Pos { z: p.z + by, ..p }
    }
}

/// One way or the other.
pub open spec fn sign(forward: bool) -> int {
    if forward {
        1
    } else {
        -1
    }
}

/// The block beside the outside of a face, along its first axis.
pub open spec fn beside_u(c: Pos, d: int, cu: bool) -> Pos {
    shifted(c.step(d), DIR_U[d] as int, sign(cu))
}

/// The block beside the outside of a face, along its second axis.
pub open spec fn beside_v(c: Pos, d: int, cv: bool) -> Pos {
    shifted(c.step(d), DIR_V[d] as int, sign(cv))
}

/// The block diagonal to the outside of a face.
pub open spec fn diagonal(c: Pos, d: int, cu: bool, cv: bool) -> Pos {
    shifted(beside_u(c, d, cu), DIR_V[d] as int, sign(cv))
}

/// The block at `p` is a full opaque cube.
pub open spec fn occluding(world: &World, rules: &Rules, p: Pos) -> bool {
    rules.class(world.at(p)) == CLASS_OPAQUE
}

/// The block that counts as the diagonal one. Where both sides are full blocks the
/// diagonal is out of sight, and the first side stands in for it.
pub open spec fn seen_diagonal(world: &World, rules: &Rules, c: Pos, d: int, cu: bool, cv: bool) -> Pos {
    if occluding(world, rules, beside_u(c, d, cu)) && occluding(world, rules, beside_v(c, d, cv)) {
        beside_u(c, d, cu)
    } else {
        diagonal(c, d, cu, cv)
    }
}

/// 1 or 0.
pub open spec fn count(yes: bool) -> int {
    if yes {
        1
    } else {
        0
    }
}

/// How many of the three blocks around a corner occlude it.
pub open spec fn occluders(world: &World, rules: &Rules, c: Pos, d: int, cu: bool, cv: bool) -> int {
    count(occluding(world, rules, beside_u(c, d, cu))) + count(occluding(world, rules, beside_v(c, d, cv))) + count(
        occluding(world, rules, seen_diagonal(world, rules, c, d, cu, cv)),
    )
}

/// The light of a block around a corner. A block with no light at all takes that of
/// the one the face touches, so a wall's dark inside never darkens the face it
/// bounds.
pub open spec fn corner_light(world: &World, light: &Light, c: Pos, d: int, p: Pos) -> u8 {
    if light.at(world, p) == 0 {
        light.at(world, c.step(d))
    } else {
        light.at(world, p)
    }
}

/// A corner's light: the floor of the average of four blocks, on the outside of the
/// face.
pub open spec fn corner_rule(world: &World, rules: &Rules, light: &Light, c: Pos, d: int, cu: bool, cv: bool) -> Corner {
    let lo = light.at(world, c.step(d));
    let l1 = corner_light(world, light, c, d, beside_u(c, d, cu));
    let l2 = corner_light(world, light, c, d, beside_v(c, d, cv));
    let lk = corner_light(world, light, c, d, seen_diagonal(world, rules, c, d, cu, cv));
    Corner {
        sky: ((high(lo) + high(l1) + high(l2) + high(lk)) / 4) as u8,
        block: ((low(lo) + low(l1) + low(l2) + low(lk)) / 4) as u8,
        occluders: occluders(world, rules, c, d, cu, cv) as u8,
    }
}

/// The coordinates of `p` are numbers of a coordinate's type.
pub open spec fn in_range(p: Pos) -> bool {
    &&& i32::MIN <= p.x <= i32::MAX
    &&& i32::MIN <= p.y <= i32::MAX
    &&& i32::MIN <= p.z <= i32::MAX
}

/// The block diagonal to the outside of a face, which is the furthest from it along each axis
/// that is looked at, can be named.
pub open spec fn has_room(c: [i32; 3], d: int, cu: bool, cv: bool) -> bool {
    in_range(diagonal(pos_of(c), d, cu, cv))
}

fn shift(p: [i32; 3], axis: usize, forward: bool) -> (q: [i32; 3])
    requires
        axis < 3,
        in_range(shifted(pos_of(p), axis as int, sign(forward))),
    ensures
        pos_of(q) == shifted(pos_of(p), axis as int, sign(forward)),
{
    let mut q = p;
    if forward {
        q[axis] = p[axis] + 1;
    } else {
        q[axis] = p[axis] - 1;
    }
    q
}

fn occludes_at(world: &World, rules: &Rules, p: [i32; 3]) -> (yes: bool)
    requires
        world.wf(),
        rules.wf(),
    ensures
        yes == occluding(world, rules, pos_of(p)),
{
    rules.occludes(world.get(p[0], p[1], p[2]))
}

/// The four blocks on the outside of a face, around one corner: the one the face
/// touches, the two beside it, and the one that counts as the diagonal.
fn corner_blocks(world: &World, rules: &Rules, c: [i32; 3], d: usize, cu: bool, cv: bool) -> (out: (
    [i32; 3],
    [i32; 3],
    [i32; 3],
    [i32; 3],
    u8,
))
    requires
        world.wf(),
        rules.wf(),
        d < 6,
        has_room(c, d as int, cu, cv),
    ensures
        pos_of(out.0) == pos_of(c).step(d as int),
        pos_of(out.1) == beside_u(pos_of(c), d as int, cu),
        pos_of(out.2) == beside_v(pos_of(c), d as int, cv),
        pos_of(out.3) == seen_diagonal(world, rules, pos_of(c), d as int, cu, cv),
        out.4 == occluders(world, rules, pos_of(c), d as int, cu, cv),
        out.4 <= 3,
{
    let step = DIR_STEP[d];
    proof {
        axes_differ(d as int);
    }
    let o = [c[0] + step[0], c[1] + step[1], c[2] + step[2]];
    let s1 = shift(o, DIR_U[d], cu);
    let s2 = shift(o, DIR_V[d], cv);
    let occ1 = occludes_at(world, rules, s1);
    let occ2 = occludes_at(world, rules, s2);
    let k = if occ1 && occ2 {
        s1
    } else {
        shift(s1, DIR_V[d], cv)
    };
    let occk = occludes_at(world, rules, k);
    let n: u8 = (if occ1 { 1u8 } else { 0u8 }) + (if occ2 { 1u8 } else { 0u8 }) + (if occk { 1u8 } else { 0u8 });
    (o, s1, s2, k, n)
}

/// The smooth-lighting rule for the face of the block at `c` in direction `d`, at
/// corner `(cu, cv)`.
pub fn corner(world: &World, rules: &Rules, light: &Light, c: [i32; 3], d: usize, cu: bool, cv: bool) -> (out: Corner)
    requires
        light.fits(world),
        rules.wf(),
        d < 6,
        has_room(c, d as int, cu, cv),
    ensures
        out == corner_rule(world, rules, light, pos_of(c), d as int, cu, cv),
        out.occluders <= 3,
        out.sky <= 15,
        out.block <= 15,
{
    let (o, s1, s2, k, n) = corner_blocks(world, rules, c, d, cu, cv);
    let lo = light.get(world, o[0], o[1], o[2]);
    let v1 = light.get(world, s1[0], s1[1], s1[2]);
    let v2 = light.get(world, s2[0], s2[1], s2[2]);
    let vk = light.get(world, k[0], k[1], k[2]);
    let l1 = if v1 == 0 {
        lo
    } else {
        v1
    };
    let l2 = if v2 == 0 {
        lo
    } else {
        v2
    };
    let lk = if vk == 0 {
        lo
    } else {
        vk
    };
    Corner {
        sky: (high_of(lo) + high_of(l1) + high_of(l2) + high_of(lk)) / 4,
        block: (low_of(lo) + low_of(l1) + low_of(l2) + low_of(lk)) / 4,
        occluders: n,
    }
}

/// How many blocks occlude each corner of a face; bit 0 of a corner's number is its
/// `cu` and bit 1 its `cv`.
pub fn face_ao(world: &World, rules: &Rules, c: [i32; 3], d: usize) -> (out: [u8; 4])
    requires
        world.wf(),
        rules.wf(),
        d < 6,
        forall|cu: bool, cv: bool| #[trigger] has_room(c, d as int, cu, cv),
    ensures
        out[0] == occluders(world, rules, pos_of(c), d as int, false, false),
        out[1] == occluders(world, rules, pos_of(c), d as int, true, false),
        out[2] == occluders(world, rules, pos_of(c), d as int, false, true),
        out[3] == occluders(world, rules, pos_of(c), d as int, true, true),
        forall|k: int| 0 <= k < 4 ==> #[trigger] out[k] <= 3,
{
    [
        corner_ao(world, rules, c, d, false, false),
        corner_ao(world, rules, c, d, true, false),
        corner_ao(world, rules, c, d, false, true),
        corner_ao(world, rules, c, d, true, true),
    ]
}

/// How many blocks occlude one corner of a face.
pub fn corner_ao(world: &World, rules: &Rules, c: [i32; 3], d: usize, cu: bool, cv: bool) -> (n: u8)
    requires
        world.wf(),
        rules.wf(),
        d < 6,
        has_room(c, d as int, cu, cv),
    ensures
        n == occluders(world, rules, pos_of(c), d as int, cu, cv),
        n <= 3,
{
    let (_, _, _, _, n) = corner_blocks(world, rules, c, d, cu, cv);
    n
}

/// The axis of a direction and the two axes of its faces are the three axes.
proof fn axes_differ(d: int)
    requires
        0 <= d < 6,
    ensures
        DIR_U[d] < 3,
        DIR_V[d] < 3,
        DIR_U[d] != DIR_V[d],
        forall|k: int|
            0 <= k < 3 ==> -1 <= #[trigger] DIR_STEP[d][k] <= 1 && (k == DIR_U[d] || k == DIR_V[d] ==> DIR_STEP[d][k] == 0),
{
}

/// A corner's occluders are those of its face, three at most, and three wherever both sides
/// occlude, whatever the diagonal is. Its sky and its block light are each the floor of a mean
/// of four blocks' values, so none is more than 15.
pub proof fn corner_and_face_agree(world: &World, rules: &Rules, light: &Light, c: Pos, d: int, cu: bool, cv: bool)
    ensures
        ({
            let k = corner_rule(world, rules, light, c, d, cu, cv);
            let sides = occluding(world, rules, beside_u(c, d, cu)) && occluding(world, rules, beside_v(c, d, cv));
            let lo = light.at(world, c.step(d));
            let l1 = corner_light(world, light, c, d, beside_u(c, d, cu));
            let l2 = corner_light(world, light, c, d, beside_v(c, d, cv));
            let lk = corner_light(world, light, c, d, seen_diagonal(world, rules, c, d, cu, cv));
            &&& k.occluders == occluders(world, rules, c, d, cu, cv) <= 3
            &&& sides ==> k.occluders == 3
            &&& k.sky <= 15
            &&& k.block <= 15
            &&& 4 * k.sky <= high(lo) + high(l1) + high(l2) + high(lk) < 4 * k.sky + 4
            &&& 4 * k.block <= low(lo) + low(l1) + low(l2) + low(lk) < 4 * k.block + 4
        }),
{
}

} // verus!
