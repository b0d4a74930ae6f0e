//! The visible faces of a section: unit faces, or rectangles of them merged greedily.
use vstd::prelude::*;

use crate::meshing::face::{Face, DIR_STEP, DIR_U, DIR_V};
use crate::meshing::sweep::{sweep, sweep_layer, Rect};
use crate::meshing::world::{Rules, World, AIR};
use crate::voxel::shape::{pos_of, Pos, Shape};
use crate::voxel::sorted::{ordered, sorted_by_key};

verus! {

/// The number of face places of a section: six for each of its cells.
pub const FACE_PLACES: u32 = 24576;

/// The first block of a section.
pub open spec fn first_block(sh: Shape, s: int) -> Pos {
    let c = sh.section_pos(s);
    Pos { x: c.x * 16, y: c.y * 16, z: c.z * 16 }
}

/// The block at `p` in section `s`.
pub open spec fn block_in(sh: Shape, s: int, p: Pos) -> Pos {
    let o = first_block(sh, s);
    Pos { x: o.x + p.x, y: o.y + p.y, z: o.z + p.z }
}

/// The face in direction `d` of the block at `p` in section `s` shows.
pub open spec fn face_shows(world: &World, rules: &Rules, s: int, p: Pos, d: int) -> bool {
    let q = block_in(world.shape(), s, p);
    rules.shows(world.at(q), world.at(q.step(d)))
}

/// The unit face in direction `d` of the block at `p`.
pub open spec fn unit_face(p: Pos, d: int, state: u16) -> Face {
    Face { pos: [p.x as u8, p.y as u8, p.z as u8], dir: d as u8, w: 1, h: 1, state, quad: 0 }
}

/// The position in its section of the cell that a face place belongs to. Places are
/// ordered by x, then y, then z, then direction.
pub open spec fn place_pos(n: int) -> Pos {
    Pos { x: n / 1536, y: (n / 96) % 16, z: (n / 6) % 16 }
}

/// The visible unit faces at the places below `n`, in order.
pub open spec fn plain_faces(world: &World, rules: &Rules, s: int, n: int) -> Seq<Face>
    decreases n,
{
    if n <= 0 {
        Seq::empty()
    } else {
        let before = plain_faces(world, rules, s, n - 1);
        let p = place_pos(n - 1);
        let d = (n - 1) % 6;
        if face_shows(world, rules, s, p, d) {
            before.push(unit_face(p, d, world.at(block_in(world.shape(), s, p))))
        } else {
            before
        }
    }
}

/// The block beside the one at `p`, both counted from `origin`.
pub fn neighbour(world: &World, origin: [i32; 3], p: [i32; 3], d: usize) -> (b: u16)
    requires
        world.wf(),
        d < 6,
        forall|a: int| 0 <= a < 3 ==> 0 <= #[trigger] origin[a] <= i32::MAX - 31,
        forall|a: int| 0 <= a < 3 ==> 0 <= #[trigger] p[a] < 16,
    ensures
        b == world.at(
            (Pos { x: origin[0] + p[0], y: origin[1] + p[1], z: origin[2] + p[2] }).step(d as int),
        ),
{
    let s = DIR_STEP[d];
    world.get(origin[0] + p[0] + s[0], origin[1] + p[1] + s[1], origin[2] + p[2] + s[2])
}

/// The first block of a section.
pub fn origin(world: &World, s: usize) -> (o: [i32; 3])
    requires
        world.wf(),
        s < world.shape().sections(),
    ensures
        pos_of(o) == first_block(world.shape(), s as int),
        forall|a: int| 0 <= a < 3 ==> 0 <= #[trigger] o[a] <= i32::MAX - 31,
{
    let c = world.section_coords(s);
    [c[0] as i32 * 16, c[1] as i32 * 16, c[2] as i32 * 16]
}

/// The visible unit faces of section `s`, sorted.
pub fn mesh_section(world: &World, rules: &Rules, s: usize) -> (out: Vec<Face>)
    requires
        world.wf(),
        rules.wf(),
        s < world.shape().sections(),
    ensures
        out@ == plain_faces(world, rules, s as int, 24576),
{
    let ghost sh = world.shape();
    let o = origin(world, s);
    let mut out: Vec<Face> = Vec::new();
    let mut n: u32 = 0;
    while n < FACE_PLACES
        invariant
            n <= FACE_PLACES,
            world.wf(),
            rules.wf(),
            sh == world.shape(),
            pos_of(o) == first_block(sh, s as int),
            forall|a: int| 0 <= a < 3 ==> 0 <= #[trigger] o[a] <= i32::MAX - 31,
            out@ == plain_faces(world, rules, s as int, n as int),
        decreases FACE_PLACES - n,
    {
        let (x, y, z, d) = (n / 1536, (n / 96) % 16, (n / 6) % 16, (n % 6) as usize);
        let p = [x as i32, y as i32, z as i32];
        let ghost q = place_pos(n as int);
        assert(pos_of(p) == q);
        assert(o[0] >= 0 && o[1] >= 0 && o[2] >= 0);
        let a = world.get(o[0] + p[0], o[1] + p[1], o[2] + p[2]);
        if a != AIR {
            if rules.visible(a, neighbour(world, o, p, d)) {
                let pos = [x as u8, y as u8, z as u8];
                out.push(Face::unit(pos, d as u8, a));
                assert(pos@ =~= unit_face(q, d as int, a).pos@);
            }
        }
        n += 1;
    }
    out
}

/// The cell of a layer of direction `d` at (u, v).
pub open spec fn layer_cell(d: int, layer: int, u: int, v: int) -> Pos {
    let c = |a: int|
        if a == d / 2 {
            layer
        } else if a == DIR_U[d] {
            u
        } else {
            v
        };
    Pos { x: c(0), y: c(1), z: c(2) }
}

/// The states of the faces of a layer that show, air where none does: (u, v) at
/// `u + 16 * v`.
pub open spec fn mask(world: &World, rules: &Rules, s: int, d: int, layer: int) -> Seq<u16> {
    Seq::new(
        256,
        |k: int|
            {
                let p = layer_cell(d, layer, k % 16, k / 16);
                if face_shows(world, rules, s, p, d) {
                    world.at(block_in(world.shape(), s, p))
                } else {
                    AIR
                }
            },
    )
}

/// The face that a rectangle of a layer is.
pub open spec fn rect_face(d: int, layer: int, r: Rect, state: u16) -> Face {
    let p = layer_cell(d, layer, r.at as int % 16, r.at as int / 16);
    Face { pos: [p.x as u8, p.y as u8, p.z as u8], dir: d as u8, w: r.w, h: r.h, state, quad: 0 }
}

/// The merged faces of a layer.
pub open spec fn layer_faces(world: &World, rules: &Rules, s: int, d: int, layer: int) -> Seq<Face> {
    let g = mask(world, rules, s, d, layer);
    let rects = sweep(g, 256).rects;
    Seq::new(rects.len(), |i: int| rect_face(d, layer, rects[i], g[rects[i].at as int]))
}

/// The merged faces of the first `n` layers, sixteen for each direction.
pub open spec fn greedy_faces(world: &World, rules: &Rules, s: int, n: int) -> Seq<Face>
    decreases n,
{
    if n <= 0 {
        Seq::empty()
    } else {
        greedy_faces(world, rules, s, n - 1) + layer_faces(world, rules, s, (n - 1) / 16, (n - 1) % 16)
    }
}

/// The order of faces: by position, then direction, width, height, state and quad.
pub open spec fn face_order(f: Face) -> int {
    (((((((f.pos[0] * 256 + f.pos[1]) * 256 + f.pos[2]) * 256 + f.dir) * 256 + f.w) * 256 + f.h) * 65536 + f.state) * 65536
        + f.quad) as int
}

fn order_key(f: Face) -> (k: u128)
    ensures
        k == face_order(f),
{
    let a = ((f.pos[0] as u128 * 256 + f.pos[1] as u128) * 256 + f.pos[2] as u128) * 256 + f.dir as u128;
    let b = (a * 256 + f.w as u128) * 256 + f.h as u128;
    (b * 65536 + f.state as u128) * 65536 + f.quad as u128
}

/// Faces in order.
pub(crate) fn sort_faces(faces: &Vec<Face>) -> (out: Vec<Face>)
    ensures
        ordered(out@, |f: Face| face_order(f)),
        out@.to_multiset() == faces@.to_multiset(),
{
    let mut keys: Vec<u128> = Vec::new();
    let mut i: usize = 0;
    while i < faces.len()
        invariant
            i <= faces@.len(),
            keys@.len() == i,
            forall|j: int| 0 <= j < i ==> keys@[j] == face_order(#[trigger] faces@[j]),
        decreases faces@.len() - i,
    {
        keys.push(order_key(faces[i]));
        i += 1;
    }
    let ghost key = |f: Face| face_order(f);
    sorted_by_key(faces, &keys, Ghost(key))
}

/// The states of the faces of a layer that show.
fn layer_mask(world: &World, rules: &Rules, s: usize, o: [i32; 3], d: usize, layer: usize) -> (g: Vec<u16>)
    requires
        world.wf(),
        rules.wf(),
        d < 6,
        layer < 16,
        pos_of(o) == first_block(world.shape(), s as int),
        forall|a: int| 0 <= a < 3 ==> 0 <= #[trigger] o[a] <= i32::MAX - 31,
    ensures
        g@ == mask(world, rules, s as int, d as int, layer as int),
{
    let (axis, ua, va) = (d / 2, DIR_U[d], DIR_V[d]);
    assert(axis < 3 && ua < 3 && va < 3 && axis != ua && axis != va && ua != va);
    let mut g: Vec<u16> = Vec::new();
    let mut k: usize = 0;
    while k < 256
        invariant
            k <= 256,
            world.wf(),
            rules.wf(),
            d < 6,
            layer < 16,
            axis == d / 2,
            ua == DIR_U[d as int],
            va == DIR_V[d as int],
            axis < 3,
            ua < 3,
            va < 3,
            axis != ua,
            axis != va,
            ua != va,
            pos_of(o) == first_block(world.shape(), s as int),
            forall|a: int| 0 <= a < 3 ==> 0 <= #[trigger] o[a] <= i32::MAX - 31,
            g@ == mask(world, rules, s as int, d as int, layer as int).take(k as int),
        decreases 256 - k,
    {
        let mut p: [i32; 3] = [0, 0, 0];
        p[axis] = layer as i32;
        p[ua] = (k % 16) as i32;
        p[va] = (k / 16) as i32;
        let ghost q = layer_cell(d as int, layer as int, k as int % 16, k as int / 16);
        assert(pos_of(p) == q);
        assert(o[0] >= 0 && o[1] >= 0 && o[2] >= 0 && p[0] < 16 && p[1] < 16 && p[2] < 16);
        let a = world.get(o[0] + p[0], o[1] + p[1], o[2] + p[2]);
        let state = if rules.visible(a, neighbour(world, o, p, d)) {
            a
        } else {
            AIR
        };
        g.push(state);
        assert(g@ =~= mask(world, rules, s as int, d as int, layer as int).take(k + 1));
        k += 1;
    }
    assert(g@ =~= mask(world, rules, s as int, d as int, layer as int));
    g
}

/// The merged faces of section `s`, sorted: in each layer, row by row, each rectangle
/// is as wide as it can be, and of that width as high as it can be.
pub fn mesh_section_greedy(world: &World, rules: &Rules, s: usize) -> (out: Vec<Face>)
    requires
        world.wf(),
        rules.wf(),
        s < world.shape().sections(),
    ensures
        ordered(out@, |f: Face| face_order(f)),
        out@.to_multiset() == greedy_faces(world, rules, s as int, 96).to_multiset(),
{
    let o = origin(world, s);
    let mut out: Vec<Face> = Vec::new();
    let mut n: usize = 0;
    while n < 96
        invariant
            n <= 96,
            world.wf(),
            rules.wf(),
            pos_of(o) == first_block(world.shape(), s as int),
            forall|a: int| 0 <= a < 3 ==> 0 <= #[trigger] o[a] <= i32::MAX - 31,
            out@ == greedy_faces(world, rules, s as int, n as int),
        decreases 96 - n,
    {
        let (d, layer) = (n / 16, n % 16);
        let g = layer_mask(world, rules, s, o, d, layer);
        let rects = sweep_layer(&g);
        let (axis, ua, va) = (d / 2, DIR_U[d], DIR_V[d]);
        assert(axis < 3 && ua < 3 && va < 3 && axis != ua && axis != va && ua != va);
        let ghost before = out@;
        let ghost faces = layer_faces(world, rules, s as int, d as int, layer as int);
        let mut i: usize = 0;
        assert(out@ =~= before + faces.take(0));
        while i < rects.len()
            invariant
                i <= rects@.len(),
                d < 6,
                layer < 16,
                axis == d / 2,
                ua == DIR_U[d as int],
                va == DIR_V[d as int],
                axis < 3,
                ua < 3,
                va < 3,
                axis != ua,
                axis != va,
                ua != va,
                g@ == mask(world, rules, s as int, d as int, layer as int),
                rects@ == sweep(g@, 256).rects,
                faces == layer_faces(world, rules, s as int, d as int, layer as int),
                out@ == before + faces.take(i as int),
            decreases rects@.len() - i,
        {
            let r = rects[i];
            let state = g[r.at as usize];
            let mut pos: [u8; 3] = [0, 0, 0];
            pos[axis] = layer as u8;
            pos[ua] = r.at % 16;
            pos[va] = r.at / 16;
            let f = Face { pos, dir: d as u8, w: r.w, h: r.h, state, quad: 0 };
            proof {
                let want = rect_face(d as int, layer as int, r, state);
                assert(f.pos@ =~= want.pos@);
                assert(f.pos =~= want.pos);
                assert(f == want);
                assert(faces[i as int] == want);
            }
            out.push(f);
            assert(out@ =~= before + faces.take(i + 1));
            i += 1;
        }
        assert(faces.take(i as int) =~= faces);
        n += 1;
    }
    sort_faces(&out)
}

} // verus!
