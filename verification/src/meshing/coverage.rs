//! Both ways of meshing draw the same faces, and an edit changes few meshes.
use vstd::prelude::*;

use crate::meshing::cpu_mesh::{
    block_in, face_order, face_shows, greedy_faces, layer_cell, layer_faces, mask, place_pos,
    plain_faces, rect_face, unit_face,
};
use crate::meshing::face::{Face, DIR_U, DIR_V};
use crate::meshing::sweep::{in_rect, sweep, swept, Rect};
use crate::meshing::world::{bordered, touched, Rules, World, AIR};
use crate::voxel::shape::{Pos, Shape};
use crate::voxel::sorted::ordered;

verus! {

/// Where a face is in its section.
pub open spec fn face_pos(f: Face) -> Pos {
    Pos { x: f.pos[0] as int, y: f.pos[1] as int, z: f.pos[2] as int }
}

/// `f` is a unit face of section `s` that shows.
pub open spec fn is_visible_face(world: &World, rules: &Rules, s: int, f: Face) -> bool {
    &&& f.pos[0] < 16
    &&& f.pos[1] < 16
    &&& f.pos[2] < 16
    &&& f.dir < 6
    &&& f.w == 1
    &&& f.h == 1
    &&& f.quad == 0
    &&& face_shows(world, rules, s, face_pos(f), f.dir as int)
    &&& f.state == world.at(block_in(world.shape(), s, face_pos(f)))
}

/// The number of the place that a unit face has in the order of a mesh.
pub open spec fn place_of(f: Face) -> int {
    ((f.pos[0] * 16 + f.pos[1]) * 16 + f.pos[2]) * 6 + f.dir
}

/// A place is its parts.
proof fn place_parts(n: int)
    requires
        0 <= n < 24576,
    ensures
        0 <= n / 1536 < 16,
        0 <= (n / 96) % 16 < 16,
        0 <= (n / 6) % 16 < 16,
        n == (((n / 1536) * 16 + (n / 96) % 16) * 16 + (n / 6) % 16) * 6 + n % 6,
{
    let a = n / 6;
    assert(n == a * 6 + n % 6);
    assert(n / 96 == a / 16);
    let b = a / 16;
    assert(a == b * 16 + a % 16);
    assert(n / 1536 == b / 16);
    assert(b == (b / 16) * 16 + b % 16);
}

/// The parts make the place.
proof fn parts_of(x: int, y: int, z: int, d: int)
    requires
        0 <= x < 16,
        0 <= y < 16,
        0 <= z < 16,
        0 <= d < 6,
    ensures
        ({
            let n = ((x * 16 + y) * 16 + z) * 6 + d;
            0 <= n < 24576 && place_pos(n) == (Pos { x, y, z }) && n % 6 == d
        }),
{
    let c = (x * 16 + y) * 16 + z;
    let n = c * 6 + d;
    assert(n / 6 == c && n % 6 == d);
    assert(n / 96 == c / 16);
    assert(c / 16 == x * 16 + y && c % 16 == z);
    assert(n / 1536 == c / 256);
    assert(c / 256 == x);
    assert((x * 16 + y) % 16 == y);
}

/// A unit face is given by its place and its state.
proof fn unit_face_is(f: Face, p: Pos, d: int)
    requires
        0 <= p.x < 16,
        0 <= p.y < 16,
        0 <= p.z < 16,
        0 <= d < 6,
    ensures
        f == unit_face(p, d, f.state) <==> face_pos(f) == p && f.dir == d && f.w == 1 && f.h == 1 && f.quad == 0,
{
    let g = unit_face(p, d, f.state);
    assert(g.pos[0] == p.x && g.pos[1] == p.y && g.pos[2] == p.z);
    if face_pos(f) == p {
        assert(f.pos@ =~= g.pos@);
        assert(f.pos =~= g.pos);
    }
}

proof fn plain_faces_below(world: &World, rules: &Rules, s: int, n: int)
    requires
        0 <= n <= 24576,
    ensures
        forall|f: Face| #[trigger]
            plain_faces(world, rules, s, n).contains(f) <==> is_visible_face(world, rules, s, f) && place_of(f) < n,
        forall|i: int, j: int|
            0 <= i < j < plain_faces(world, rules, s, n).len() ==> place_of(#[trigger] plain_faces(world, rules, s, n)[i])
                < place_of(#[trigger] plain_faces(world, rules, s, n)[j]),
    decreases n,
{
    let all = plain_faces(world, rules, s, n);
    if n > 0 {
        let before = plain_faces(world, rules, s, n - 1);
        plain_faces_below(world, rules, s, n - 1);
        let p = place_pos(n - 1);
        let d = (n - 1) % 6;
        place_parts(n - 1);
        let state = world.at(block_in(world.shape(), s, p));
        let u = unit_face(p, d, state);
        unit_face_is(u, p, d);
        assert forall|f: Face| #[trigger] all.contains(f) <==> is_visible_face(world, rules, s, f) && place_of(f) < n by {
            assert(before.contains(f) <==> is_visible_face(world, rules, s, f) && place_of(f) < n - 1);
            if all.contains(f) {
                let i = all.index_of(f);
                if i < before.len() {
                    assert(before[i] == f);
                    assert(before.contains(f));
                }
            }
            if is_visible_face(world, rules, s, f) && place_of(f) < n {
                if place_of(f) < n - 1 {
                    let i = before.index_of(f);
                    assert(all[i] == f);
                } else {
                    parts_of(f.pos[0] as int, f.pos[1] as int, f.pos[2] as int, f.dir as int);
                    unit_face_is(f, p, d);
                    assert(all[before.len() as int] == f);
                }
            }
        }
        assert forall|i: int, j: int| 0 <= i < j < all.len() implies place_of(#[trigger] all[i]) < place_of(
            #[trigger] all[j],
        ) by {
            assert(all[i] == before[i]);
            assert(before.contains(before[i]));
            if j < before.len() {
                assert(all[j] == before[j]);
            } else {
                assert(all[j] == u);
            }
        }
    } else {
        assert forall|f: Face| #[trigger] all.contains(f) <==> is_visible_face(world, rules, s, f) && place_of(f) < n by {
            assert(place_of(f) >= 0);
        }
    }
}

/// Wider digits keep the order.
proof fn wider_digits(x: int, y: int, z: int, d: int, x2: int, y2: int, z2: int, d2: int)
    requires
        0 <= y < 16,
        0 <= z < 16,
        0 <= d < 6,
        0 <= y2 < 16,
        0 <= z2 < 16,
        0 <= d2 < 6,
        ((x * 16 + y) * 16 + z) * 6 + d < ((x2 * 16 + y2) * 16 + z2) * 6 + d2,
    ensures
        ((x * 256 + y) * 256 + z) * 256 + d < ((x2 * 256 + y2) * 256 + z2) * 256 + d2,
{
    if x == x2 && y == y2 && z == z2 {
    } else if x == x2 && y == y2 {
        assert(z < z2);
    } else if x == x2 {
        assert(y < y2);
    } else {
        assert(x < x2);
    }
}

/// A mesh of unit faces holds each face that shows, once, and is sorted.
pub proof fn plain_mesh_is_exact(world: &World, rules: &Rules, s: int)
    ensures
        forall|f: Face| #[trigger]
            plain_faces(world, rules, s, 24576).contains(f) <==> is_visible_face(world, rules, s, f),
        plain_faces(world, rules, s, 24576).no_duplicates(),
        ordered(plain_faces(world, rules, s, 24576), |f: Face| face_order(f)),
{
    let all = plain_faces(world, rules, s, 24576);
    plain_faces_below(world, rules, s, 24576);
    assert forall|f: Face| #[trigger] all.contains(f) <==> is_visible_face(world, rules, s, f) by {
        if is_visible_face(world, rules, s, f) {
            parts_of(f.pos[0] as int, f.pos[1] as int, f.pos[2] as int, f.dir as int);
        }
    }
    assert forall|i: int, j: int| 0 <= i < j < all.len() implies all[i] != all[j] by {
        assert(place_of(all[i]) < place_of(all[j]));
    }
    let key = |f: Face| face_order(f);
    assert forall|i: int, j: int| 0 <= i <= j < all.len() implies key(#[trigger] all[i]) <= key(#[trigger] all[j]) by {
        if i < j {
            let (f, g) = (all[i], all[j]);
            assert(place_of(f) < place_of(g));
            assert(all.contains(f) && all.contains(g));
            wider_digits(
                f.pos[0] as int,
                f.pos[1] as int,
                f.pos[2] as int,
                f.dir as int,
                g.pos[0] as int,
                g.pos[1] as int,
                g.pos[2] as int,
                g.dir as int,
            );
        }
    }
}

/// The layer that a face is in, along its direction.
pub open spec fn layer_of(f: Face) -> int {
    f.pos[f.dir as int / 2] as int
}

/// The place of a face in its layer.
pub open spec fn spot_of(f: Face) -> int {
    f.pos[DIR_U[f.dir as int] as int] + 16 * f.pos[DIR_V[f.dir as int] as int]
}

/// The axes of a direction are all three.
proof fn axes(d: int)
    requires
        0 <= d < 6,
    ensures
        0 <= d / 2 < 3,
        0 <= DIR_U[d] < 3,
        0 <= DIR_V[d] < 3,
        d / 2 != DIR_U[d],
        d / 2 != DIR_V[d],
        DIR_U[d] != DIR_V[d],
{
}

/// What a rectangle of a layer covers.
proof fn rect_covers(d: int, layer: int, r: Rect, state: u16, x: Face)
    requires
        0 <= d < 6,
        0 <= layer < 16,
        1 <= r.w,
        1 <= r.h,
        r.at % 16 + r.w <= 16,
        r.at / 16 + r.h <= 16,
    ensures
        rect_face(d, layer, r, state).covers(x) <==> {
            &&& x.pos[0] < 16
            &&& x.pos[1] < 16
            &&& x.pos[2] < 16
            &&& x.dir == d
            &&& x.w == 1
            &&& x.h == 1
            &&& x.quad == 0
            &&& layer_of(x) == layer
            &&& in_rect(r, spot_of(x))
            &&& x.state == state
        },
{
    let f = rect_face(d, layer, r, state);
    axes(d);
    let (a, u, v) = (d / 2, DIR_U[d] as int, DIR_V[d] as int);
    assert(f.dir == d);
    assert(f.pos[a] == layer && f.pos[u] == r.at as int % 16 && f.pos[v] == r.at as int / 16);
    if f.covers(x) {
        assert(x.pos[a] == layer);
        assert(x.pos[u] < 16 && x.pos[v] < 16);
        assert(x.pos[0] < 16 && x.pos[1] < 16 && x.pos[2] < 16);
        assert(spot_of(x) % 16 == x.pos[u] && spot_of(x) / 16 == x.pos[v]);
    }
    if x.dir == d && x.pos[0] < 16 && x.pos[1] < 16 && x.pos[2] < 16 && layer_of(x) == layer && in_rect(r, spot_of(x)) {
        assert(x.pos[u] < 16 && x.pos[v] < 16);
        assert(spot_of(x) % 16 == x.pos[u] && spot_of(x) / 16 == x.pos[v]);
        let du = x.pos[u] - f.pos[u];
        let dv = x.pos[v] - f.pos[v];
        assert forall|i: int| 0 <= i < 3 implies #[trigger] x.pos[i] == f.pos[i] + (if i == u {
            du
        } else {
            0
        }) + (if i == v {
            dv
        } else {
            0
        }) by {
            if i != u && i != v {
                assert(i == a);
            }
        }
    }
}

/// The face covers something.
pub open spec fn covers_some(f: Face) -> bool {
    exists|x: Face| #[trigger] f.covers(x)
}

/// The mask at a face's spot is its state, where it shows.
proof fn mask_at(world: &World, rules: &Rules, s: int, x: Face)
    requires
        x.pos[0] < 16,
        x.pos[1] < 16,
        x.pos[2] < 16,
        x.dir < 6,
    ensures
        0 <= spot_of(x) < 256,
        0 <= layer_of(x) < 16,
        mask(world, rules, s, x.dir as int, layer_of(x))[spot_of(x)] == (if face_shows(
            world,
            rules,
            s,
            face_pos(x),
            x.dir as int,
        ) {
            world.at(block_in(world.shape(), s, face_pos(x)))
        } else {
            AIR
        }),
{
    let d = x.dir as int;
    axes(d);
    let k = spot_of(x);
    let (u, v) = (DIR_U[d] as int, DIR_V[d] as int);
    assert(x.pos[u] < 16 && x.pos[v] < 16 && x.pos[d / 2] < 16);
    assert(k % 16 == x.pos[u] && k / 16 == x.pos[v]);
    assert(layer_cell(d, layer_of(x), k % 16, k / 16) == face_pos(x));
}

/// A rectangle covers its first cell.
proof fn rect_covers_some(d: int, layer: int, r: Rect, state: u16)
    requires
        0 <= d < 6,
        0 <= layer < 16,
        1 <= r.w,
        1 <= r.h,
        r.at % 16 + r.w <= 16,
        r.at / 16 + r.h <= 16,
    ensures
        covers_some(rect_face(d, layer, r, state)),
{
    let p = layer_cell(d, layer, r.at as int % 16, r.at as int / 16);
    let x = unit_face(p, d, state);
    axes(d);
    assert(x.pos[0] == p.x && x.pos[1] == p.y && x.pos[2] == p.z);
    assert(spot_of(x) == r.at);
    rect_covers(d, layer, r, state, x);
    assert(in_rect(r, r.at as int));
}

/// The merged faces of a layer cover faces of it that show.
proof fn layer_shows(world: &World, rules: &Rules, s: int, d: int, layer: int, i: int, x: Face)
    requires
        0 <= d < 6,
        0 <= layer < 16,
        0 <= i < layer_faces(world, rules, s, d, layer).len(),
        layer_faces(world, rules, s, d, layer)[i].covers(x),
    ensures
        x.dir == d,
        layer_of(x) == layer,
        is_visible_face(world, rules, s, x),
        in_rect(sweep(mask(world, rules, s, d, layer), 256).rects[i], spot_of(x)),
{
    let g = mask(world, rules, s, d, layer);
    let rects = sweep(g, 256).rects;
    swept(g, 256);
    let r = rects[i];
    rect_covers(d, layer, r, g[r.at as int], x);
    mask_at(world, rules, s, x);
    assert(in_rect(rects[i], spot_of(x)));
}

/// Some merged face of a layer covers a face of it that shows.
proof fn layer_has(world: &World, rules: &Rules, s: int, d: int, layer: int, x: Face) -> (i: int)
    requires
        0 <= d < 6,
        0 <= layer < 16,
        x.dir == d,
        layer_of(x) == layer,
        is_visible_face(world, rules, s, x),
    ensures
        0 <= i < layer_faces(world, rules, s, d, layer).len(),
        layer_faces(world, rules, s, d, layer)[i].covers(x),
{
    let g = mask(world, rules, s, d, layer);
    let rects = sweep(g, 256).rects;
    swept(g, 256);
    mask_at(world, rules, s, x);
    let k = spot_of(x);
    assert(g[k] != 0);
    assert(sweep(g, 256).covered.contains(k));
    let i = choose|i: int| 0 <= i < rects.len() && in_rect(#[trigger] rects[i], k);
    assert(in_rect(rects[i], k));
    rect_covers(d, layer, rects[i], g[rects[i].at as int], x);
    i
}

/// The merged faces of a layer cover the faces of it that show, each once.
proof fn layer_covers(world: &World, rules: &Rules, s: int, d: int, layer: int)
    requires
        0 <= d < 6,
        0 <= layer < 16,
    ensures
        ({
            let faces = layer_faces(world, rules, s, d, layer);
            &&& forall|i: int, x: Face|
                0 <= i < faces.len() && #[trigger] faces[i].covers(x) ==> x.dir == d && layer_of(x) == layer
                    && is_visible_face(world, rules, s, x)
            &&& forall|i: int, j: int, x: Face|
                0 <= i < faces.len() && 0 <= j < faces.len() && #[trigger] faces[i].covers(x) && #[trigger] faces[j].covers(x)
                    ==> i == j
            &&& forall|x: Face|
                x.dir == d && layer_of(x) == layer && #[trigger] is_visible_face(world, rules, s, x) ==> exists|i: int|
                    0 <= i < faces.len() && #[trigger] faces[i].covers(x)
            &&& forall|i: int| 0 <= i < faces.len() ==> covers_some(#[trigger] faces[i])
        }),
{
    let g = mask(world, rules, s, d, layer);
    let rects = sweep(g, 256).rects;
    let faces = layer_faces(world, rules, s, d, layer);
    assert forall|i: int, x: Face| 0 <= i < faces.len() && #[trigger] faces[i].covers(x) implies x.dir == d && layer_of(x)
        == layer && is_visible_face(world, rules, s, x) by {
        layer_shows(world, rules, s, d, layer, i, x);
    }
    assert forall|i: int, j: int, x: Face|
        0 <= i < faces.len() && 0 <= j < faces.len() && #[trigger] faces[i].covers(x) && #[trigger] faces[j].covers(x) implies i
        == j by {
        layer_shows(world, rules, s, d, layer, i, x);
        layer_shows(world, rules, s, d, layer, j, x);
        swept(g, 256);
        assert(in_rect(rects[i], spot_of(x)));
        assert(in_rect(rects[j], spot_of(x)));
    }
    assert forall|x: Face|
        x.dir == d && layer_of(x) == layer && #[trigger] is_visible_face(world, rules, s, x) implies exists|i: int|
        0 <= i < faces.len() && #[trigger] faces[i].covers(x) by {
        let i = layer_has(world, rules, s, d, layer, x);
        assert(faces[i].covers(x));
    }
    assert forall|i: int| 0 <= i < faces.len() implies covers_some(#[trigger] faces[i]) by {
        swept(g, 256);
        rect_covers_some(d, layer, rects[i], g[rects[i].at as int]);
    }
}

proof fn greedy_covers_below(world: &World, rules: &Rules, s: int, n: int)
    requires
        0 <= n <= 96,
    ensures
        ({
            let faces = greedy_faces(world, rules, s, n);
            &&& forall|i: int, x: Face|
                0 <= i < faces.len() && #[trigger] faces[i].covers(x) ==> x.dir * 16 + layer_of(x) < n && is_visible_face(
                    world,
                    rules,
                    s,
                    x,
                )
            &&& forall|i: int, j: int, x: Face|
                0 <= i < faces.len() && 0 <= j < faces.len() && #[trigger] faces[i].covers(x) && #[trigger] faces[j].covers(x)
                    ==> i == j
            &&& forall|x: Face|
                x.dir * 16 + layer_of(x) < n && #[trigger] is_visible_face(world, rules, s, x) ==> exists|i: int|
                    0 <= i < faces.len() && #[trigger] faces[i].covers(x)
            &&& forall|i: int| 0 <= i < faces.len() ==> covers_some(#[trigger] faces[i])
        }),
    decreases n,
{
    if n > 0 {
        greedy_covers_below(world, rules, s, n - 1);
        let (d, layer) = ((n - 1) / 16, (n - 1) % 16);
        layer_covers(world, rules, s, d, layer);
        let before = greedy_faces(world, rules, s, n - 1);
        let last = layer_faces(world, rules, s, d, layer);
        let faces = greedy_faces(world, rules, s, n);
        let k = before.len() as int;
        assert forall|i: int| 0 <= i < faces.len() implies #[trigger] faces[i] == (if i < k {
            before[i]
        } else {
            last[i - k]
        }) by {}
        assert forall|i: int, x: Face| 0 <= i < faces.len() && #[trigger] faces[i].covers(x) implies x.dir * 16 + layer_of(x)
            < n && is_visible_face(world, rules, s, x) by {
            if i < k {
                assert(before[i].covers(x));
            } else {
                assert(last[i - k].covers(x));
            }
        }
        assert forall|i: int, j: int, x: Face|
            0 <= i < faces.len() && 0 <= j < faces.len() && #[trigger] faces[i].covers(x) && #[trigger] faces[j].covers(x) implies i
            == j by {
            if i < k {
                assert(before[i].covers(x));
            } else {
                assert(last[i - k].covers(x));
            }
            if j < k {
                assert(before[j].covers(x));
            } else {
                assert(last[j - k].covers(x));
            }
        }
        assert forall|x: Face|
            x.dir * 16 + layer_of(x) < n && #[trigger] is_visible_face(world, rules, s, x) implies exists|i: int|
            0 <= i < faces.len() && #[trigger] faces[i].covers(x) by {
            mask_at(world, rules, s, x);
            if x.dir * 16 + layer_of(x) < n - 1 {
                let i = choose|i: int| 0 <= i < before.len() && #[trigger] before[i].covers(x);
                assert(faces[i].covers(x));
            } else {
                assert(x.dir == d && layer_of(x) == layer);
                let i = choose|i: int| 0 <= i < last.len() && #[trigger] last[i].covers(x);
                assert(faces[k + i].covers(x));
            }
        }
        assert forall|i: int| 0 <= i < faces.len() implies covers_some(#[trigger] faces[i]) by {
            if i < k {
                assert(covers_some(before[i]));
                let x = choose|x: Face| #[trigger] before[i].covers(x);
                assert(faces[i].covers(x));
            } else {
                assert(covers_some(last[i - k]));
                let x = choose|x: Face| #[trigger] last[i - k].covers(x);
                assert(faces[i].covers(x));
            }
        }
    } else {
        assert forall|x: Face|
            x.dir * 16 + layer_of(x) < n && #[trigger] is_visible_face(world, rules, s, x) implies false by {
            mask_at(world, rules, s, x);
        }
    }
}

/// Merged faces cover exactly the faces that show, each once: `out` is a mesh of merged
/// faces, in any order.
pub proof fn greedy_covers_the_same_faces(world: &World, rules: &Rules, s: int, out: Seq<Face>)
    requires
        out.to_multiset() == greedy_faces(world, rules, s, 96).to_multiset(),
    ensures
        forall|x: Face|
            plain_faces(world, rules, s, 24576).contains(x) <==> exists|i: int|
                0 <= i < out.len() && #[trigger] out[i].covers(x),
        forall|i: int, j: int, x: Face|
            0 <= i < out.len() && 0 <= j < out.len() && #[trigger] out[i].covers(x) && #[trigger] out[j].covers(x) ==> i == j,
{
    broadcast use vstd::seq_lib::group_to_multiset_ensures;

    let faces = greedy_faces(world, rules, s, 96);
    greedy_covers_below(world, rules, s, 96);
    plain_mesh_is_exact(world, rules, s);
    assert(faces.no_duplicates()) by {
        assert forall|i: int, j: int| 0 <= i < j < faces.len() implies faces[i] != faces[j] by {
            assert(covers_some(faces[i]));
            let x = choose|x: Face| #[trigger] faces[i].covers(x);
            if faces[i] == faces[j] {
                assert(faces[i].covers(x) && faces[j].covers(x));
            }
        }
    }
    faces.lemma_multiset_has_no_duplicates();
    out.lemma_multiset_has_no_duplicates_conv();
    assert forall|f: Face| #[trigger] out.contains(f) <==> faces.contains(f) by {
        vstd::seq_lib::to_multiset_contains(out, f);
        vstd::seq_lib::to_multiset_contains(faces, f);
    }
    assert forall|x: Face|
        plain_faces(world, rules, s, 24576).contains(x) <==> exists|i: int|
            0 <= i < out.len() && #[trigger] out[i].covers(x) by {
        if plain_faces(world, rules, s, 24576).contains(x) {
            assert(is_visible_face(world, rules, s, x));
            mask_at(world, rules, s, x);
            let j = choose|j: int| 0 <= j < faces.len() && #[trigger] faces[j].covers(x);
            assert(faces.contains(faces[j]));
            assert(out.contains(faces[j]));
            let i = out.index_of(faces[j]);
            assert(out[i].covers(x));
        }
        if exists|i: int| 0 <= i < out.len() && #[trigger] out[i].covers(x) {
            let i = choose|i: int| 0 <= i < out.len() && #[trigger] out[i].covers(x);
            assert(out.contains(out[i]));
            assert(faces.contains(out[i]));
            let j = faces.index_of(out[i]);
            assert(faces[j].covers(x));
        }
    }
    assert forall|i: int, j: int, x: Face|
        0 <= i < out.len() && 0 <= j < out.len() && #[trigger] out[i].covers(x) && #[trigger] out[j].covers(x) implies i
        == j by {
        assert(out.contains(out[i]) && out.contains(out[j]));
        assert(faces.contains(out[i]) && faces.contains(out[j]));
        let (a, b) = (faces.index_of(out[i]), faces.index_of(out[j]));
        assert(faces[a].covers(x) && faces[b].covers(x));
    }
}

/// A list keeps what it holds.
proof fn touched_holds(sh: Shape, p: Pos, j: int, n: int, s: u32)
    requires
        0 <= j <= n,
        touched(sh, p, j).contains(s),
    ensures
        touched(sh, p, n).contains(s),
    decreases n,
{
    if j < n {
        touched_holds(sh, p, j, n - 1, s);
        let before = touched(sh, p, n - 1);
        let i = before.index_of(s);
        assert(touched(sh, p, n)[i] == s);
    }
}

/// The section of a block beside `p` is touched.
proof fn beside_is_touched(sh: Shape, p: Pos, d: int)
    requires
        sh.wf(),
        sh.has(p),
        0 <= d < 6,
        sh.has(p.step(d)),
    ensures
        touched(sh, p, 3).contains(sh.section_of(p.step(d)) as u32),
{
    let q = p.step(d);
    let c = sh.section_pos_of(p);
    assert(touched(sh, p, 0)[0] == sh.section_of(p) as u32);
    touched_holds(sh, p, 0, 3, sh.section_of(p) as u32);
    let r = sh.section_pos_of(q);
    if r != c {
        let axis = d / 2;
        assert(bordered(sh, p, axis) == Some(r));
        let before = touched(sh, p, axis);
        assert(touched(sh, p, axis + 1)[before.len() as int] == sh.section(r) as u32);
        touched_holds(sh, p, axis + 1, 3, sh.section(r) as u32);
    }
}

/// Changing one block changes the meshes of the sections it touches, and of no other.
pub proof fn an_edit_changes_touched_meshes_only(before: &World, after: &World, rules: &Rules, p: Pos, s: int, n: int)
    requires
        before.wf(),
        after.shape() == before.shape(),
        before.shape().has(p),
        forall|q: Pos| q != p ==> #[trigger] after.at(q) == before.at(q),
        0 <= s < before.shape().sections(),
        !touched(before.shape(), p, 3).contains(s as u32),
        0 <= n <= 24576,
    ensures
        plain_faces(after, rules, s, n) == plain_faces(before, rules, s, n),
    decreases n,
{
    if n > 0 {
        an_edit_changes_touched_meshes_only(before, after, rules, p, s, n - 1);
        let sh = before.shape();
        let d = (n - 1) % 6;
        place_parts(n - 1);
        let q = block_in(sh, s, place_pos(n - 1));
        sh.section_pos_round_trip(s);
        assert(sh.has(q));
        assert(sh.section_pos_of(q) == sh.section_pos(s));
        assert(sh.section_of(q) == s);
        assert(touched(sh, p, 0)[0] == sh.section_of(p) as u32);
        touched_holds(sh, p, 0, 3, sh.section_of(p) as u32);
        assert(q != p);
        if q.step(d) == p {
            let back = if d % 2 == 0 {
                d + 1
            } else {
                d - 1
            };
            assert(p.step(back) == q);
            beside_is_touched(sh, p, back);
        }
    }
}

} // verus!
