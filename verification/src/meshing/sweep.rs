//! Merging equal cells of a 16 by 16 grid into rectangles.
use vstd::prelude::*;

verus! {

/// A rectangle of cells: the place `u + 16 * v` of its first cell, its width along u and
/// its height along v.
#[derive(Clone, Copy, Debug, PartialEq, Eq)]
pub struct Rect {
    pub at: u8,
    pub w: u8,
    pub h: u8,
}

/// The rectangles found so far, and the cells they cover.
pub struct Sweep {
    pub rects: Seq<Rect>,
    pub covered: Set<int>,
}

/// The cell at place `i` can join a rectangle that starts at place `k`.
pub open spec fn joins(g: Seq<u16>, covered: Set<int>, k: int, i: int) -> bool {
    !covered.contains(i) && g[i] == g[k]
}

/// The width that a rectangle from `k` reaches, which is `w` at least.
pub open spec fn reach(g: Seq<u16>, covered: Set<int>, k: int, w: int) -> int
    decreases 16 - w,
{
    if k % 16 + w < 16 && w < 16 && joins(g, covered, k, k + w) {
        reach(g, covered, k, w + 1)
    } else {
        w
    }
}

/// The row `h` above a rectangle of width `w` from `k` can join it.
pub open spec fn row_joins(g: Seq<u16>, covered: Set<int>, k: int, w: int, h: int) -> bool {
    forall|j: int| 0 <= j < w ==> #[trigger] joins(g, covered, k, k + 16 * h + j)
}

/// The height that a rectangle of width `w` from `k` reaches, which is `h` at least.
pub open spec fn rise(g: Seq<u16>, covered: Set<int>, k: int, w: int, h: int) -> int
    decreases 16 - h,
{
    if k / 16 + h < 16 && h < 16 && row_joins(g, covered, k, w, h) {
        rise(g, covered, k, w, h + 1)
    } else {
        h
    }
}

/// The cell at place `i` is in a rectangle.
pub open spec fn in_rect(r: Rect, i: int) -> bool {
    let u = i % 16 - r.at as int % 16;
    let v = i / 16 - r.at as int / 16;
    0 <= i < 256 && 0 <= u < r.w && 0 <= v < r.h
}

/// The rectangle that starts at the uncovered cell `k`.
pub open spec fn rect_from(g: Seq<u16>, covered: Set<int>, k: int) -> Rect {
    let w = reach(g, covered, k, 1);
    Rect { at: k as u8, w: w as u8, h: rise(g, covered, k, w, 1) as u8 }
}

/// The rectangles that start at the first `n` cells: at each that is not empty and not
/// covered yet, the widest that can be, and of that width the highest.
pub open spec fn sweep(g: Seq<u16>, n: int) -> Sweep
    decreases n,
{
    if n <= 0 {
        Sweep { rects: Seq::empty(), covered: Set::empty() }
    } else {
        let before = sweep(g, n - 1);
        let k = n - 1;
        if before.covered.contains(k) || g[k] == 0 {
            before
        } else {
            let r = rect_from(g, before.covered, k);
            Sweep {
                rects: before.rects.push(r),
                covered: before.covered.union(Set::new(|i: int| in_rect(r, i))),
            }
        }
    }
}

/// A reached width stays in the row, and its cells join.
proof fn reach_is(g: Seq<u16>, covered: Set<int>, k: int, w: int)
    requires
        0 <= k < 256,
        1 <= w,
        k % 16 + w <= 16,
        forall|j: int| 0 <= j < w ==> #[trigger] joins(g, covered, k, k + j),
    ensures
        w <= reach(g, covered, k, w),
        k % 16 + reach(g, covered, k, w) <= 16,
        forall|j: int| 0 <= j < reach(g, covered, k, w) ==> #[trigger] joins(g, covered, k, k + j),
    decreases 16 - w,
{
    if k % 16 + w < 16 && joins(g, covered, k, k + w) {
        reach_is(g, covered, k, w + 1);
    }
}

/// A reached height stays in the grid, and its rows join.
proof fn rise_is(g: Seq<u16>, covered: Set<int>, k: int, w: int, h: int)
    requires
        0 <= k < 256,
        1 <= h,
        k / 16 + h <= 16,
        forall|m: int| 0 <= m < h ==> #[trigger] row_joins(g, covered, k, w, m),
    ensures
        h <= rise(g, covered, k, w, h),
        k / 16 + rise(g, covered, k, w, h) <= 16,
        forall|m: int| 0 <= m < rise(g, covered, k, w, h) ==> #[trigger] row_joins(g, covered, k, w, m),
    decreases 16 - h,
{
    if k / 16 + h < 16 && row_joins(g, covered, k, w, h) {
        rise_is(g, covered, k, w, h + 1);
    }
}

/// The rectangle from `k` lies in the grid, and each of its cells joins it.
pub proof fn rect_is(g: Seq<u16>, covered: Set<int>, k: int)
    requires
        0 <= k < 256,
        !covered.contains(k),
    ensures
        ({
            let r = rect_from(g, covered, k);
            &&& r.at == k
            &&& 1 <= r.w
            &&& 1 <= r.h
            &&& k % 16 + r.w <= 16
            &&& k / 16 + r.h <= 16
            &&& r.w == reach(g, covered, k, 1)
            &&& r.h == rise(g, covered, k, r.w as int, 1)
            &&& in_rect(r, k)
            &&& forall|i: int| #[trigger] in_rect(r, i) ==> joins(g, covered, k, i)
        }),
{
    assert forall|j: int| 0 <= j < 1 implies #[trigger] joins(g, covered, k, k + j) by {}
    reach_is(g, covered, k, 1);
    let w = reach(g, covered, k, 1);
    assert forall|m: int| 0 <= m < 1 implies #[trigger] row_joins(g, covered, k, w, m) by {
        assert forall|j: int| 0 <= j < w implies #[trigger] joins(g, covered, k, k + 16 * m + j) by {
            assert(joins(g, covered, k, k + j));
        }
    }
    rise_is(g, covered, k, w, 1);
    let r = rect_from(g, covered, k);
    assert forall|i: int| #[trigger] in_rect(r, i) implies joins(g, covered, k, i) by {
        let v = i / 16 - k / 16;
        let u = i % 16 - k % 16;
        assert(row_joins(g, covered, k, w, v));
        assert(joins(g, covered, k, k + 16 * v + u));
        assert(i == k + 16 * v + u);
    }
}

/// The rectangles lie in the grid, hold one state each that is not empty, cover what is
/// covered, and no two share a cell; every cell before `n` that is not empty is covered.
pub open spec fn is_swept(g: Seq<u16>, n: int, w: Sweep) -> bool {
    &&& forall|a: int|
        0 <= a < w.rects.len() ==> {
            let r = #[trigger] w.rects[a];
            &&& 1 <= r.w
            &&& 1 <= r.h
            &&& r.at % 16 + r.w <= 16
            &&& r.at / 16 + r.h <= 16
            &&& g[r.at as int] != 0
        }
    &&& forall|a: int, i: int|
        0 <= a < w.rects.len() && #[trigger] in_rect(w.rects[a], i) ==> g[i] == g[w.rects[a].at as int] && w.covered.contains(i)
    &&& forall|i: int| #[trigger] w.covered.contains(i) ==> exists|a: int| 0 <= a < w.rects.len() && in_rect(#[trigger] w.rects[a], i)
    &&& forall|a: int, b: int, i: int|
        0 <= a < w.rects.len() && 0 <= b < w.rects.len() && #[trigger] in_rect(w.rects[a], i) && #[trigger] in_rect(
            w.rects[b],
            i,
        ) ==> a == b
    &&& forall|i: int| 0 <= i < n && #[trigger] g[i] != 0 ==> w.covered.contains(i)
}

/// What a sweep finds is as it should be.
pub proof fn swept(g: Seq<u16>, n: int)
    requires
        g.len() == 256,
        0 <= n <= 256,
    ensures
        is_swept(g, n, sweep(g, n)),
    decreases n,
{
    if n > 0 {
        swept(g, n - 1);
        let before = sweep(g, n - 1);
        let after = sweep(g, n);
        let k = n - 1;
        if !(before.covered.contains(k) || g[k] == 0) {
            rect_is(g, before.covered, k);
            let r = rect_from(g, before.covered, k);
            let last = before.rects.len() as int;
            assert(after.rects[last] == r);
            assert forall|a: int, i: int| 0 <= a < after.rects.len() && #[trigger] in_rect(after.rects[a], i) implies g[i]
                == g[after.rects[a].at as int] && after.covered.contains(i) by {
                if a < last {
                    assert(after.rects[a] == before.rects[a]);
                    assert(in_rect(before.rects[a], i));
                } else {
                    assert(joins(g, before.covered, k, i));
                }
            }
            assert forall|i: int| #[trigger] after.covered.contains(i) implies exists|a: int|
                0 <= a < after.rects.len() && in_rect(#[trigger] after.rects[a], i) by {
                if before.covered.contains(i) {
                    let a = choose|a: int| 0 <= a < before.rects.len() && in_rect(#[trigger] before.rects[a], i);
                    assert(after.rects[a] == before.rects[a]);
                } else {
                    assert(in_rect(after.rects[last], i));
                }
            }
            assert forall|a: int, b: int, i: int|
                0 <= a < after.rects.len() && 0 <= b < after.rects.len() && #[trigger] in_rect(after.rects[a], i)
                    && #[trigger] in_rect(after.rects[b], i) implies a == b by {
                if a < last {
                    assert(in_rect(before.rects[a], i));
                }
                if b < last {
                    assert(in_rect(before.rects[b], i));
                }
                if (a < last) != (b < last) {
                    assert(in_rect(r, i));
                    assert(joins(g, before.covered, k, i));
                }
            }
            assert forall|a: int| 0 <= a < after.rects.len() implies {
                let r = #[trigger] after.rects[a];
                &&& 1 <= r.w
                &&& 1 <= r.h
                &&& r.at % 16 + r.w <= 16
                &&& r.at / 16 + r.h <= 16
                &&& g[r.at as int] != 0
            } by {
                if a < last {
                    assert(after.rects[a] == before.rects[a]);
                }
            }
            assert forall|i: int| 0 <= i < n && #[trigger] g[i] != 0 implies after.covered.contains(i) by {
                if i == k {
                    assert(in_rect(r, k));
                }
            }
        }
    }
}

/// The rectangles of a grid.
pub fn sweep_layer(g: &Vec<u16>) -> (rects: Vec<Rect>)
    requires
        g@.len() == 256,
    ensures
        rects@ == sweep(g@, 256).rects,
        forall|a: int| 0 <= a < rects@.len() ==> (#[trigger] rects@[a]).at as int / 16 < 16,
{
    let mut covered: Vec<bool> = vec![false; 256];
    let mut rects: Vec<Rect> = Vec::new();
    let mut k: usize = 0;
    while k < 256
        invariant
            k <= 256,
            g@.len() == 256,
            covered@.len() == 256,
            rects@ == sweep(g@, k as int).rects,
            forall|i: int| 0 <= i < 256 ==> (#[trigger] covered@[i] <==> sweep(g@, k as int).covered.contains(i)),
        decreases 256 - k,
    {
        let ghost before = sweep(g@, k as int);
        if !covered[k] && g[k] != 0 {
            let u = k % 16;
            let v = k / 16;
            proof {
                rect_is(g@, before.covered, k as int);
            }
            let mut w: usize = 1;
            while u + w < 16 && !covered[k + w] && g[k + w] == g[k]
                invariant
                    k < 256,
                    u == k % 16,
                    1 <= w,
                    u + w <= 16,
                    g@.len() == 256,
                    covered@.len() == 256,
                    forall|i: int| 0 <= i < 256 ==> (#[trigger] covered@[i] <==> before.covered.contains(i)),
                    reach(g@, before.covered, k as int, 1) == reach(g@, before.covered, k as int, w as int),
                decreases 16 - w,
            {
                w += 1;
            }
            assert(w == reach(g@, before.covered, k as int, 1));
            let mut h: usize = 1;
            let mut more = true;
            while more
                invariant
                    k < 256,
                    u == k % 16,
                    v == k / 16,
                    1 <= w,
                    u + w <= 16,
                    1 <= h,
                    v + h <= 16,
                    g@.len() == 256,
                    covered@.len() == 256,
                    forall|i: int| 0 <= i < 256 ==> (#[trigger] covered@[i] <==> before.covered.contains(i)),
                    more ==> rise(g@, before.covered, k as int, w as int, 1) == rise(
                        g@,
                        before.covered,
                        k as int,
                        w as int,
                        h as int,
                    ),
                    !more ==> rise(g@, before.covered, k as int, w as int, 1) == h,
                decreases 16 - h, more as int,
            {
                if v + h < 16 && row_is_free(g, &covered, k, w, h, Ghost(before.covered)) {
                    h += 1;
                } else {
                    more = false;
                }
            }
            let r = Rect { at: k as u8, w: w as u8, h: h as u8 };
            assert(r == rect_from(g@, before.covered, k as int));
            cover(&mut covered, r);
            rects.push(r);
            proof {
                let after = sweep(g@, k + 1);
                assert forall|i: int| 0 <= i < 256 implies (#[trigger] covered@[i] <==> after.covered.contains(i)) by {
                    assert(after.covered.contains(i) <==> before.covered.contains(i) || in_rect(r, i));
                }
            }
        }
        k += 1;
    }
    rects
}

/// Whether the row `h` above a rectangle can join it.
fn row_is_free(g: &Vec<u16>, covered: &Vec<bool>, k: usize, w: usize, h: usize, Ghost(set): Ghost<Set<int>>) -> (yes: bool)
    requires
        k < 256,
        k % 16 + w <= 16,
        k / 16 + h < 16,
        g@.len() == 256,
        covered@.len() == 256,
        forall|i: int| 0 <= i < 256 ==> (#[trigger] covered@[i] <==> set.contains(i)),
    ensures
        yes == row_joins(g@, set, k as int, w as int, h as int),
{
    let mut j: usize = 0;
    while j < w
        invariant
            j <= w,
            k < 256,
            k % 16 + w <= 16,
            k / 16 + h < 16,
            g@.len() == 256,
            covered@.len() == 256,
            forall|i: int| 0 <= i < 256 ==> (#[trigger] covered@[i] <==> set.contains(i)),
            forall|i: int| 0 <= i < j ==> #[trigger] joins(g@, set, k as int, k + 16 * h + i),
        decreases w - j,
    {
        let i = k + 16 * h + j;
        if covered[i] || g[i] != g[k] {
            assert(!joins(g@, set, k as int, k + 16 * h + j));
            return false;
        }
        j += 1;
    }
    true
}

/// Marks the cells of a rectangle as covered.
fn cover(covered: &mut Vec<bool>, r: Rect)
    requires
        old(covered)@.len() == 256,
        r.at % 16 + r.w <= 16,
        r.at / 16 + r.h <= 16,
    ensures
        final(covered)@.len() == 256,
        forall|i: int| 0 <= i < 256 ==> #[trigger] final(covered)@[i] == (old(covered)@[i] || in_rect(r, i)),
{
    let at = r.at as usize;
    let mut v: usize = 0;
    while v < r.h as usize
        invariant
            v <= r.h,
            at == r.at,
            r.at % 16 + r.w <= 16,
            r.at / 16 + r.h <= 16,
            covered@.len() == 256,
            forall|i: int|
                0 <= i < 256 ==> #[trigger] covered@[i] == (old(covered)@[i] || (in_rect(r, i) && i / 16 < r.at as int / 16 + v)),
        decreases r.h - v,
    {
        let mut u: usize = 0;
        while u < r.w as usize
            invariant
                u <= r.w,
                v < r.h,
                at == r.at,
                r.at % 16 + r.w <= 16,
                r.at / 16 + r.h <= 16,
                covered@.len() == 256,
                forall|i: int|
                    0 <= i < 256 ==> #[trigger] covered@[i] == (old(covered)@[i] || (in_rect(r, i) && (i / 16 < r.at as int
                        / 16 + v || (i / 16 == r.at as int / 16 + v && i % 16 < r.at as int % 16 + u)))),
            decreases r.w - u,
        {
            covered.set(at + 16 * v + u, true);
            u += 1;
        }
        v += 1;
    }
}

} // verus!
