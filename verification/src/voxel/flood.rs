//! A value that floods from cell to cell, losing something at each step.
use vstd::prelude::*;

use crate::voxel::shape::{opposite, Shape};

verus! {

/// The most a value can be.
pub const TOP: u8 = 15;

/// One value per cell, from 0 to 15.
pub open spec fn is_levels(sh: Shape, f: Seq<int>) -> bool {
    f.len() == sh.count() && forall|i: int| 0 <= i < f.len() ==> 0 <= #[trigger] f[i] <= 15
}

/// What each cell takes from a value that enters it. It takes at least 1.
pub open spec fn is_drops(sh: Shape, drop: Seq<int>) -> bool {
    drop.len() == sh.count() && forall|i: int| 0 <= i < drop.len() ==> 1 <= #[trigger] drop[i]
}

/// The larger of two numbers.
pub open spec fn max(a: int, b: int) -> int {
    if a < b {
        b
    } else {
        a
    }
}

/// What cell `i` gets from its neighbour in direction `d`.
pub open spec fn incoming(sh: Shape, drop: Seq<int>, f: Seq<int>, i: int, d: int) -> int {
    match sh.next(i, d) {
        Some(j) => max(0, f[j] - drop[i]),
        None => 0,
    }
}

/// The most that cell `i` gets from a neighbour.
pub open spec fn best_incoming(sh: Shape, drop: Seq<int>, f: Seq<int>, i: int) -> int {
    max(
        max(
            max(incoming(sh, drop, f, i, 0), incoming(sh, drop, f, i, 1)),
            max(incoming(sh, drop, f, i, 2), incoming(sh, drop, f, i, 3)),
        ),
        max(incoming(sh, drop, f, i, 4), incoming(sh, drop, f, i, 5)),
    )
}

/// Every cell has what it is seeded with, or what its best neighbour gives it,
/// whichever is more.
pub open spec fn settled(sh: Shape, seed: Seq<int>, drop: Seq<int>, f: Seq<int>) -> bool {
    &&& is_levels(sh, f)
    &&& forall|i: int| 0 <= i < sh.count() ==> #[trigger] f[i] == max(seed[i], best_incoming(sh, drop, f, i))
}

/// No cell has less than its seed and its neighbours ask.
pub open spec fn enough(sh: Shape, seed: Seq<int>, drop: Seq<int>, f: Seq<int>) -> bool {
    &&& is_levels(sh, f)
    &&& forall|i: int| 0 <= i < sh.count() ==> #[trigger] f[i] >= seed[i]
    &&& forall|i: int, d: int|
        0 <= i < sh.count() && 0 <= d < 6 ==> f[i] >= #[trigger] incoming(sh, drop, f, i, d)
}

/// No cell has more than its seed and its neighbours give.
pub open spec fn earned(sh: Shape, seed: Seq<int>, drop: Seq<int>, f: Seq<int>) -> bool {
    &&& is_levels(sh, f)
    &&& forall|i: int|
        0 <= i < sh.count() ==> #[trigger] f[i] <= seed[i] || (exists|d: int|
            0 <= d < 6 && f[i] <= #[trigger] incoming(sh, drop, f, i, d))
}

/// A value is settled when each cell has enough and no more than it earned.
pub proof fn settled_is_enough_and_earned(sh: Shape, seed: Seq<int>, drop: Seq<int>, f: Seq<int>)
    ensures
        settled(sh, seed, drop, f) <==> enough(sh, seed, drop, f) && earned(sh, seed, drop, f),
{
    if settled(sh, seed, drop, f) {
        assert forall|i: int, d: int| 0 <= i < sh.count() && 0 <= d < 6 implies f[i] >= #[trigger] incoming(sh, drop, f, i, d) by {
            assert(f[i] == max(seed[i], best_incoming(sh, drop, f, i)));
        }
        assert forall|i: int| 0 <= i < sh.count() implies #[trigger] f[i] <= seed[i] || (exists|d: int|
            0 <= d < 6 && f[i] <= #[trigger] incoming(sh, drop, f, i, d)) by {
            best_is_some(sh, drop, f, i);
        }
    }
    if enough(sh, seed, drop, f) && earned(sh, seed, drop, f) {
        assert forall|i: int| 0 <= i < sh.count() implies #[trigger] f[i] == max(seed[i], best_incoming(sh, drop, f, i)) by {
            best_is_some(sh, drop, f, i);
            if f[i] > seed[i] {
                let d = choose|d: int| 0 <= d < 6 && f[i] <= #[trigger] incoming(sh, drop, f, i, d);
            }
        }
    }
}

/// The best neighbour is one of the neighbours.
proof fn best_is_some(sh: Shape, drop: Seq<int>, f: Seq<int>, i: int)
    ensures
        exists|d: int| 0 <= d < 6 && best_incoming(sh, drop, f, i) == #[trigger] incoming(sh, drop, f, i, d),
        forall|d: int| 0 <= d < 6 ==> best_incoming(sh, drop, f, i) >= #[trigger] incoming(sh, drop, f, i, d),
{
    let b = best_incoming(sh, drop, f, i);
    assert(b == incoming(sh, drop, f, i, 0) || b == incoming(sh, drop, f, i, 1) || b == incoming(sh, drop, f, i, 2) || b == incoming(
        sh,
        drop,
        f,
        i,
        3,
    ) || b == incoming(sh, drop, f, i, 4) || b == incoming(sh, drop, f, i, 5));
    assert forall|d: int| 0 <= d < 6 implies b >= #[trigger] incoming(sh, drop, f, i, d) by {
        assert(d == 0 || d == 1 || d == 2 || d == 3 || d == 4 || d == 5);
    }
}

/// What is earned is no more than what is enough.
pub proof fn earned_is_no_more(sh: Shape, seed: Seq<int>, drop: Seq<int>, f: Seq<int>, g: Seq<int>, i: int)
    requires
        sh.wf(),
        is_drops(sh, drop),
        earned(sh, seed, drop, f),
        enough(sh, seed, drop, g),
        0 <= i < sh.count(),
    ensures
        f[i] <= g[i],
    decreases 16 - f[i],
{
    if f[i] > seed[i] && f[i] > 0 {
        let d = choose|d: int| 0 <= d < 6 && f[i] <= #[trigger] incoming(sh, drop, f, i, d);
        sh.next_and_back(i, d);
        let j = sh.next(i, d)->0;
        assert(f[j] > f[i]);
        earned_is_no_more(sh, seed, drop, f, g, j);
        assert(g[i] >= incoming(sh, drop, g, i, d));
    } else {
        assert(g[i] >= seed[i]);
        assert(g[i] >= 0);
    }
}

/// Seeds and drops settle into one value only.
pub proof fn settling_is_unique(sh: Shape, seed: Seq<int>, drop: Seq<int>, f: Seq<int>, g: Seq<int>)
    requires
        sh.wf(),
        is_drops(sh, drop),
        settled(sh, seed, drop, f),
        settled(sh, seed, drop, g),
    ensures
        f == g,
{
    settled_is_enough_and_earned(sh, seed, drop, f);
    settled_is_enough_and_earned(sh, seed, drop, g);
    assert forall|i: int| 0 <= i < f.len() implies f[i] == g[i] by {
        earned_is_no_more(sh, seed, drop, f, g, i);
        earned_is_no_more(sh, seed, drop, g, f, i);
    }
    assert(f =~= g);
}

/// A change is felt less far than a value reaches: where `far` counts at least the
/// steps from the nearest cell whose seed or drop changed, a cell that is far
/// enough keeps what it earned.
pub proof fn far_cells_keep(
    sh: Shape,
    seed: Seq<int>,
    drop: Seq<int>,
    f: Seq<int>,
    seed2: Seq<int>,
    drop2: Seq<int>,
    g: Seq<int>,
    far: spec_fn(int) -> int,
    i: int,
)
    requires
        sh.wf(),
        is_drops(sh, drop),
        is_drops(sh, drop2),
        earned(sh, seed, drop, f),
        enough(sh, seed2, drop2, g),
        forall|k: int| 0 <= k < sh.count() && #[trigger] far(k) >= 1 ==> seed[k] == seed2[k] && drop[k] == drop2[k],
        forall|k: int, d: int|
            0 <= k < sh.count() && 0 <= d < 6 ==> match #[trigger] sh.next(k, d) {
                Some(j) => far(j) >= far(k) - 1,
                None => true,
            },
        0 <= i < sh.count(),
        far(i) >= 16 - f[i],
    ensures
        f[i] <= g[i],
    decreases 16 - f[i],
{
    assert(f[i] <= 15);
    assert(far(i) >= 1);
    if f[i] > seed[i] && f[i] > 0 {
        let d = choose|d: int| 0 <= d < 6 && f[i] <= #[trigger] incoming(sh, drop, f, i, d);
        sh.next_and_back(i, d);
        let j = sh.next(i, d)->0;
        assert(f[j] > f[i]);
        far_cells_keep(sh, seed, drop, f, seed2, drop2, g, far, j);
        assert(g[i] >= incoming(sh, drop2, g, i, d));
    } else {
        assert(g[i] >= seed2[i]);
        assert(g[i] >= 0);
    }
}

/// The cells that may still raise a neighbour: those the flood starts at, and those
/// it raised.
pub open spec fn active(start: Set<int>, g: Seq<int>, f: Seq<int>, j: int) -> bool {
    start.contains(j) || f[j] != g[j]
}

/// Cell `j` asks no more of its neighbours.
pub open spec fn spent(sh: Shape, drop: Seq<int>, f: Seq<int>, j: int) -> bool {
    forall|d: int|
        0 <= d < 6 ==> match #[trigger] sh.next(j, d) {
            Some(i) => f[i] >= f[j] - drop[i],
            None => true,
        }
}

/// Cell `i` has what it had, or no more than an active neighbour gives it.
pub open spec fn raised_by(sh: Shape, drop: Seq<int>, start: Set<int>, g: Seq<int>, f: Seq<int>, i: int) -> bool {
    f[i] == g[i] || exists|d: int|
        0 <= d < 6 && (match #[trigger] sh.next(i, d) {
            Some(j) => active(start, g, f, j) && f[i] <= f[j] - drop[i],
            None => false,
        })
}

/// `f` is what becomes of `g` when the cells of `start` flood: no cell falls, each
/// that rises has a reason, and no active cell asks for more.
pub open spec fn flooded(sh: Shape, drop: Seq<int>, start: Set<int>, g: Seq<int>, f: Seq<int>) -> bool {
    &&& is_levels(sh, g)
    &&& is_levels(sh, f)
    &&& forall|i: int| 0 <= i < sh.count() ==> #[trigger] f[i] >= g[i]
    &&& forall|i: int| 0 <= i < sh.count() ==> #[trigger] raised_by(sh, drop, start, g, f, i)
    &&& forall|j: int| 0 <= j < sh.count() && active(start, g, f, j) ==> #[trigger] spent(sh, drop, f, j)
}

proof fn flood_is_no_more(sh: Shape, drop: Seq<int>, start: Set<int>, g: Seq<int>, f: Seq<int>, f2: Seq<int>, i: int)
    requires
        sh.wf(),
        is_drops(sh, drop),
        flooded(sh, drop, start, g, f),
        flooded(sh, drop, start, g, f2),
        0 <= i < sh.count(),
    ensures
        f[i] <= f2[i],
    decreases 16 - f[i],
{
    if f[i] != g[i] {
        assert(raised_by(sh, drop, start, g, f, i));
        let d = choose|d: int|
            0 <= d < 6 && (match #[trigger] sh.next(i, d) {
                Some(j) => active(start, g, f, j) && f[i] <= f[j] - drop[i],
                None => false,
            });
        sh.next_and_back(i, d);
        let j = sh.next(i, d)->0;
        flood_is_no_more(sh, drop, start, g, f, f2, j);
        if f2[j] == g[j] {
            assert(f[j] >= g[j]);
        }
        assert(active(start, g, f2, j));
        assert(spent(sh, drop, f2, j));
        assert(sh.next(j, opposite(d)) == Some(i));
    } else {
        assert(f2[i] >= g[i]);
    }
}

/// A flood has one outcome only.
pub proof fn flood_is_unique(sh: Shape, drop: Seq<int>, start: Set<int>, g: Seq<int>, f: Seq<int>, f2: Seq<int>)
    requires
        sh.wf(),
        is_drops(sh, drop),
        flooded(sh, drop, start, g, f),
        flooded(sh, drop, start, g, f2),
    ensures
        f == f2,
{
    assert forall|i: int| 0 <= i < f.len() implies f[i] == f2[i] by {
        flood_is_no_more(sh, drop, start, g, f, f2, i);
        flood_is_no_more(sh, drop, start, g, f2, f, i);
    }
    assert(f =~= f2);
}

/// A settled value `f` is what floods from `g`, if `g` is nowhere more, and the
/// flood starts at every cell that gives a neighbour what `g` lacks.
pub proof fn settled_is_flooded(sh: Shape, seed: Seq<int>, drop: Seq<int>, start: Set<int>, g: Seq<int>, f: Seq<int>)
    requires
        sh.wf(),
        is_drops(sh, drop),
        settled(sh, seed, drop, f),
        is_levels(sh, g),
        forall|i: int| 0 <= i < sh.count() ==> #[trigger] g[i] <= f[i],
        forall|i: int| 0 <= i < sh.count() && f[i] != g[i] ==> #[trigger] f[i] > seed[i],
        forall|i: int, d: int|
            0 <= i < sh.count() && 0 <= d < 6 && f[i] != g[i] ==> match #[trigger] sh.next(i, d) {
                Some(j) => f[j] > 0 ==> active(start, g, f, j),
                None => true,
            },
    ensures
        flooded(sh, drop, start, g, f),
{
    settled_is_enough_and_earned(sh, seed, drop, f);
    assert forall|i: int| 0 <= i < sh.count() implies #[trigger] raised_by(sh, drop, start, g, f, i) by {
        if f[i] != g[i] {
            assert(g[i] <= f[i]);
            assert(f[i] > seed[i]);
            assert(f[i] > 0);
            let d = choose|d: int| 0 <= d < 6 && f[i] <= #[trigger] incoming(sh, drop, f, i, d);
            sh.next_and_back(i, d);
            let j = sh.next(i, d)->0;
            assert(active(start, g, f, j));
        }
    }
    assert forall|j: int| 0 <= j < sh.count() && active(start, g, f, j) implies #[trigger] spent(sh, drop, f, j) by {
        enough_is_spent(sh, seed, drop, f, j);
    }
}

/// Where each cell has enough, none asks for more.
pub proof fn enough_is_spent(sh: Shape, seed: Seq<int>, drop: Seq<int>, f: Seq<int>, j: int)
    requires
        sh.wf(),
        enough(sh, seed, drop, f),
        0 <= j < sh.count(),
    ensures
        spent(sh, drop, f, j),
{
    assert forall|d: int| 0 <= d < 6 implies (match #[trigger] sh.next(j, d) {
        Some(i) => f[i] >= f[j] - drop[i],
        None => true,
    }) by {
        sh.next_and_back(j, d);
        match sh.next(j, d) {
            Some(i) => {
                assert(f[i] >= incoming(sh, drop, f, i, opposite(d)));
            },
            None => {},
        }
    }
}

/// A flood from seeds, where every seeded cell starts it, settles.
pub proof fn flood_from_seeds_settles(sh: Shape, seed: Seq<int>, drop: Seq<int>, start: Set<int>, f: Seq<int>)
    requires
        sh.wf(),
        is_drops(sh, drop),
        flooded(sh, drop, start, seed, f),
        forall|i: int| 0 <= i < sh.count() && #[trigger] seed[i] > 0 ==> start.contains(i),
    ensures
        settled(sh, seed, drop, f),
{
    settled_is_enough_and_earned(sh, seed, drop, f);
    assert forall|i: int, d: int| 0 <= i < sh.count() && 0 <= d < 6 implies f[i] >= #[trigger] incoming(sh, drop, f, i, d) by {
        sh.next_and_back(i, d);
        match sh.next(i, d) {
            Some(j) => {
                if f[j] > 0 {
                    if f[j] == seed[j] {
                        assert(seed[j] > 0);
                    }
                    assert(active(start, seed, f, j));
                    assert(spent(sh, drop, f, j));
                    assert(sh.next(j, opposite(d)) == Some(i));
                }
            },
            None => {},
        }
    }
    assert forall|i: int| 0 <= i < sh.count() implies #[trigger] f[i] <= seed[i] || (exists|d: int|
        0 <= d < 6 && f[i] <= #[trigger] incoming(sh, drop, f, i, d)) by {
        if f[i] != seed[i] {
            assert(raised_by(sh, drop, start, seed, f, i));
            let d = choose|d: int|
                0 <= d < 6 && (match #[trigger] sh.next(i, d) {
                    Some(j) => active(start, seed, f, j) && f[i] <= f[j] - drop[i],
                    None => false,
                });
            assert(f[i] <= incoming(sh, drop, f, i, d));
        }
    }
}

/// How much all cells together can still rise.
pub open spec fn room(f: Seq<int>) -> nat
    decreases f.len(),
{
    if f.len() == 0 {
        0
    } else {
        room(f.drop_last()) + (if f.last() <= 15 {
            (15 - f.last()) as nat
        } else {
            0
        })
    }
}

/// Raising a cell leaves less room.
pub proof fn raising_takes_room(f: Seq<int>, i: int, v: int)
    requires
        0 <= i < f.len(),
        f[i] < v <= 15,
    ensures
        room(f.update(i, v)) < room(f),
    decreases f.len(),
{
    let g = f.update(i, v);
    if i == f.len() - 1 {
        assert(g.drop_last() =~= f.drop_last());
    } else {
        assert(g.drop_last() =~= f.drop_last().update(i, v));
        raising_takes_room(f.drop_last(), i, v);
    }
}

/// What a flood keeps true.
pub open spec fn flooding(sh: Shape, drop: Seq<int>, start: Set<int>, g: Seq<int>, f: Seq<int>) -> bool {
    &&& is_levels(sh, g)
    &&& is_levels(sh, f)
    &&& forall|i: int| 0 <= i < sh.count() ==> #[trigger] f[i] >= g[i]
    &&& forall|i: int| 0 <= i < sh.count() ==> #[trigger] raised_by(sh, drop, start, g, f, i)
}

/// Raising `j` because its neighbour `i` gives it `v` keeps a flood's invariant.
pub proof fn raise(sh: Shape, drop: Seq<int>, start: Set<int>, g: Seq<int>, f: Seq<int>, i: int, d: int, j: int, v: int)
    requires
        sh.wf(),
        is_drops(sh, drop),
        flooding(sh, drop, start, g, f),
        0 <= i < sh.count(),
        0 <= d < 6,
        sh.next(i, d) == Some(j),
        active(start, g, f, i),
        f[j] < v <= 15,
        v <= f[i] - drop[j],
    ensures
        i != j,
        0 <= j < sh.count(),
        flooding(sh, drop, start, g, f.update(j, v)),
        room(f.update(j, v)) < room(f),
        forall|k: int| 0 <= k < sh.count() && k != j && spent(sh, drop, f, k) ==> #[trigger] spent(sh, drop, f.update(j, v), k),
{
    let h = f.update(j, v);
    sh.next_and_back(i, d);
    raising_takes_room(f, j, v);
    assert forall|k: int| 0 <= k < sh.count() implies #[trigger] raised_by(sh, drop, start, g, h, k) by {
        assert(raised_by(sh, drop, start, g, f, k));
        if k == j {
            assert(sh.next(j, opposite(d)) == Some(i));
            assert(active(start, g, h, i));
            assert(raised_by(sh, drop, start, g, h, k));
        } else if f[k] != g[k] {
            let e = choose|e: int|
                0 <= e < 6 && (match #[trigger] sh.next(k, e) {
                    Some(m) => active(start, g, f, m) && f[k] <= f[m] - drop[k],
                    None => false,
                });
            sh.next_and_back(k, e);
            let m = sh.next(k, e)->0;
            assert(h[m] >= f[m]);
            assert(f[m] >= g[m]);
            assert(active(start, g, h, m));
        }
    }
    assert forall|k: int| 0 <= k < sh.count() implies #[trigger] h[k] >= g[k] by {
        assert(f[k] >= g[k]);
    }
    assert forall|k: int| 0 <= k < sh.count() && k != j && spent(sh, drop, f, k) implies #[trigger] spent(sh, drop, h, k) by {
        assert forall|e: int| 0 <= e < 6 implies (match #[trigger] sh.next(k, e) {
            Some(m) => h[m] >= h[k] - drop[m],
            None => true,
        }) by {
            sh.next_and_back(k, e);
            match sh.next(k, e) {
                Some(m) => {
                    assert(f[m] >= f[k] - drop[m]);
                    assert(h[m] >= f[m]);
                },
                None => {},
            }
        }
    }
}

} // verus!
