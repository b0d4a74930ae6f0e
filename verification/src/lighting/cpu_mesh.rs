//! Every visible unit face of a section, with ambient occlusion per corner, sorted.
use vstd::prelude::*;

use crate::lighting::cpu_light::{beside_u, beside_v, diagonal, face_ao, occluders};
use crate::lighting::face::{Face, DIR_STEP};
use crate::lighting::world::{around, touched, touched_sections, Rules, World, AIR};
use crate::voxel::shape::{pos_of, Pos, Shape};

verus! {

/// The number of face places of a section: six for each of its cells.
pub const FACE_PLACES: u32 = 24576;

/// The position in its section of the cell that a face place belongs to. Places are
/// ordered by x, then y, then z, then direction.
pub open spec fn place_pos(n: int) -> Pos {
    Pos { x: n / 1536, y: (n / 96) % 16, z: (n / 6) % 16 }
}

/// The first block of a section.
pub open spec fn origin(sh: Shape, s: int) -> Pos {
    let c = sh.section_pos(s);
    Pos { x: c.x * 16, y: c.y * 16, z: c.z * 16 }
}

/// The block that a face place of section `s` belongs to.
pub open spec fn place_block(sh: Shape, s: int, n: int) -> Pos {
    let o = origin(sh, s);
    let p = place_pos(n);
    Pos { x: o.x + p.x, y: o.y + p.y, z: o.z + p.z }
}

/// The face at a place shows.
pub open spec fn place_shows(world: &World, rules: &Rules, s: int, n: int) -> bool {
    let p = place_block(world.shape(), s, n);
    rules.shows(world.at(p), world.at(p.step(n % 6)))
}

/// The occlusion of a face's corners, two bits each.
pub open spec fn packed_ao(world: &World, rules: &Rules, p: Pos, d: int) -> int {
    occluders(world, rules, p, d, false, false) + 4 * occluders(world, rules, p, d, true, false) + 16 * occluders(
        world,
        rules,
        p,
        d,
        false,
        true,
    ) + 64 * occluders(world, rules, p, d, true, true)
}

/// `f` is the face at a place.
pub open spec fn is_face_at(world: &World, rules: &Rules, s: int, n: int, f: Face) -> bool {
    let p = place_block(world.shape(), s, n);
    let q = place_pos(n);
    &&& f.pos[0] == q.x
    &&& f.pos[1] == q.y
    &&& f.pos[2] == q.z
    &&& f.dir == n % 6
    &&& f.w == 1
    &&& f.h == 1
    &&& f.ao == packed_ao(world, rules, p, n % 6)
    &&& f.state == world.at(p)
    &&& f.quad == 0
}

/// The places below `n` whose faces show, in order.
pub open spec fn shown_places(world: &World, rules: &Rules, s: int, n: int) -> Seq<int>
    decreases n,
{
    if n <= 0 {
        Seq::empty()
    } else {
        let before = shown_places(world, rules, s, n - 1);
        if place_shows(world, rules, s, n - 1) {
            before.push(n - 1)
        } else {
            before
        }
    }
}

/// The order of faces: by position, then direction, then the rest.
pub open spec fn face_key(f: Face) -> int {
    ((f.pos[0] * 256 + f.pos[1]) * 256 + f.pos[2]) * 256 + f.dir
}

/// The visible unit faces of section `s`, sorted.
pub fn mesh_section(world: &World, rules: &Rules, s: usize) -> (out: Vec<Face>)
    requires
        world.wf(),
        rules.wf(),
        s < world.shape().sections(),
    ensures
        out@.len() == shown_places(world, rules, s as int, 24576).len(),
        forall|k: int|
            0 <= k < out@.len() ==> is_face_at(
                world,
                rules,
                s as int,
                shown_places(world, rules, s as int, 24576)[k],
                #[trigger] out@[k],
            ),
{
    let ghost sh = world.shape();
    let c = world.section_coords(s);
    let o = [c[0] as i32 * 16, c[1] as i32 * 16, c[2] as i32 * 16];
    let mut out: Vec<Face> = Vec::new();
    let mut n: u32 = 0;
    while n < FACE_PLACES
        invariant
            n <= FACE_PLACES,
            world.wf(),
            rules.wf(),
            s < sh.sections(),
            sh == world.shape(),
            o[0] == origin(sh, s as int).x,
            o[1] == origin(sh, s as int).y,
            o[2] == origin(sh, s as int).z,
            0 <= o[0] <= i32::MAX - 31,
            0 <= o[1] <= i32::MAX - 31,
            0 <= o[2] <= i32::MAX - 31,
            out@.len() == shown_places(world, rules, s as int, n as int).len(),
            forall|k: int|
                0 <= k < out@.len() ==> is_face_at(
                    world,
                    rules,
                    s as int,
                    shown_places(world, rules, s as int, n as int)[k],
                    #[trigger] out@[k],
                ),
        decreases FACE_PLACES - n,
    {
        let ghost places = shown_places(world, rules, s as int, n as int);
        let ghost faces = out@;
        let (x, y, z, d) = (n / 1536, (n / 96) % 16, (n / 6) % 16, (n % 6) as usize);
        let p = [o[0] + x as i32, o[1] + y as i32, o[2] + z as i32];
        assert(pos_of(p) == place_block(sh, s as int, n as int));
        let a = world.get(p[0], p[1], p[2]);
        if a != AIR {
            let step = DIR_STEP[d];
            let b = world.get(p[0] + step[0], p[1] + step[1], p[2] + step[2]);
            if rules.visible(a, b) {
                let ao = face_ao(world, rules, p, d);
                let packed = ao[0] + 4 * ao[1] + 16 * ao[2] + 64 * ao[3];
                out.push(Face::unit([x as u8, y as u8, z as u8], d as u8, packed, a));
            }
        }
        assert forall|k: int| 0 <= k < out@.len() implies is_face_at(
            world,
            rules,
            s as int,
            shown_places(world, rules, s as int, n + 1)[k],
            #[trigger] out@[k],
        ) by {
            if k < faces.len() {
                assert(out@[k] == faces[k]);
            }
        }
        n += 1;
    }
    out
}

/// A mesh holds each visible face once, in order.
pub proof fn mesh_is_sorted_and_complete(world: &World, rules: &Rules, s: int, n: int)
    requires
        0 <= n,
    ensures
        forall|i: int, j: int|
            0 <= i < j < shown_places(world, rules, s, n).len() ==> shown_places(world, rules, s, n)[i] < shown_places(
                world,
                rules,
                s,
                n,
            )[j],
        forall|m: int| #[trigger]
            shown_places(world, rules, s, n).contains(m) <==> 0 <= m < n && place_shows(world, rules, s, m),
    decreases n,
{
    if n > 0 {
        mesh_is_sorted_and_complete(world, rules, s, n - 1);
        let before = shown_places(world, rules, s, n - 1);
        let all = shown_places(world, rules, s, n);
        assert forall|i: int, j: int| 0 <= i < j < all.len() implies all[i] < all[j] by {
            assert(all[i] == before[i]);
            assert(before.contains(before[i]));
            if j < before.len() {
                assert(all[j] == before[j]);
            }
        }
        assert forall|m: int| #[trigger] all.contains(m) <==> 0 <= m < n && place_shows(world, rules, s, m) by {
            if all.contains(m) {
                let i = choose|i: int| 0 <= i < all.len() && all[i] == m;
                if i < before.len() {
                    assert(before[i] == m);
                    assert(before.contains(m));
                }
            }
            if 0 <= m < n && place_shows(world, rules, s, m) {
                if m < n - 1 {
                    assert(before.contains(m));
                    let i = choose|i: int| 0 <= i < before.len() && before[i] == m;
                    assert(all[i] == m);
                } else {
                    assert(all[before.len() as int] == m);
                }
            }
        }
    }
}

/// Faces at ascending places are in ascending order of position, then direction.
pub proof fn places_are_in_order(world: &World, rules: &Rules, s: int, n: int, m: int, f: Face, g: Face)
    requires
        0 <= n < m < 24576,
        is_face_at(world, rules, s, n, f),
        is_face_at(world, rules, s, m, g),
    ensures
        face_key(f) < face_key(g),
{
    let (p, q) = (place_pos(n), place_pos(m));
    place_parts(n);
    place_parts(m);
    wider_keys(p.x, p.y, p.z, n % 6, q.x, q.y, q.z, m % 6);
}

/// A face place is its parts.
proof fn place_parts(n: int)
    requires
        0 <= n < 24576,
    ensures
        0 <= n / 1536 < 16,
        0 <= (n / 96) % 16 < 16,
        0 <= (n / 6) % 16 < 16,
        n == (((n / 1536) * 16 + (n / 96) % 16) * 16 + (n / 6) % 16) * 6 + n % 6,
{
    let a = n / 6;
    assert(n == a * 6 + n % 6);
    assert(n / 96 == a / 16);
    let b = a / 16;
    assert(a == b * 16 + a % 16);
    assert(n / 1536 == b / 16);
    assert(b == (b / 16) * 16 + b % 16);
}

/// Wider digits keep the order.
proof fn wider_keys(x: int, y: int, z: int, d: int, x2: int, y2: int, z2: int, d2: int)
    requires
        0 <= y < 16,
        0 <= z < 16,
        0 <= d < 6,
        0 <= y2 < 16,
        0 <= z2 < 16,
        0 <= d2 < 6,
        ((x * 16 + y) * 16 + z) * 6 + d < ((x2 * 16 + y2) * 16 + z2) * 6 + d2,
    ensures
        ((x * 256 + y) * 256 + z) * 256 + d < ((x2 * 256 + y2) * 256 + z2) * 256 + d2,
{
    if x == x2 && y == y2 && z == z2 {
    } else if x == x2 && y == y2 {
        assert(z < z2);
    } else if x == x2 {
        assert(y < y2);
    } else {
        assert(x < x2);
    }
}

/// Changing one block changes the meshes of the sections it touches, and of no
/// other.
pub proof fn an_edit_changes_touched_meshes_only(
    before: &World,
    after: &World,
    rules: &Rules,
    p: Pos,
    s: int,
    n: int,
)
    requires
        before.wf(),
        after.shape() == before.shape(),
        forall|q: Pos| q != p ==> #[trigger] after.at(q) == before.at(q),
        0 <= s < before.shape().sections(),
        !touched(before.shape(), p, 27).contains(s as u32),
        0 <= n < 24576,
    ensures
        place_shows(after, rules, s, n) == place_shows(before, rules, s, n),
        forall|f: Face| #[trigger] is_face_at(after, rules, s, n, f) == is_face_at(before, rules, s, n, f),
{
    let sh = before.shape();
    let q = place_block(sh, s, n);
    let d = n % 6;
    sh.section_pos_round_trip(s);
    assert(sh.has(q));
    assert(sh.section_pos_of(q) == sh.section_pos(s));
    assert(sh.section_of(q) == s);
    touched_sections(sh, p);
    assert(!around(p, q));
    assert(q != p && q.step(d) != p);
    assert forall|cu: bool, cv: bool| #[trigger]
        occluders(after, rules, q, d, cu, cv) == occluders(before, rules, q, d, cu, cv) by {
        assert(beside_u(q, d, cu) != p && beside_v(q, d, cv) != p && diagonal(q, d, cu, cv) != p);
        assert(after.at(beside_u(q, d, cu)) == before.at(beside_u(q, d, cu)));
        assert(after.at(beside_v(q, d, cv)) == before.at(beside_v(q, d, cv)));
        assert(after.at(diagonal(q, d, cu, cv)) == before.at(diagonal(q, d, cu, cv)));
    }
}

} // verus!
