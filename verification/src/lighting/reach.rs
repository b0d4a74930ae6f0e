//! What an edit reaches: which sections it relights, which of them start again, and in what order
//! the faces of a section are read back.
use vstd::prelude::*;

use crate::lighting::exactness::box_holds;
use crate::lighting::face::Face;
use crate::lighting::gpu_types::SectionMesh;
use crate::lighting::light::{dispatches, is_update, relaxes, section_column, Groups, Kernel, Lighting, Update};
use crate::lighting::mesher::{face_order, faces_before, is_of, is_sound, slot_faces};
use crate::lighting::relight::{box_of_sections, layer_of_sections, reach_hi, reach_lo, row_of_sections, within_reach};
use crate::lighting::scene::{
    column_section, column_sections, columns_hold, is_dirty, near_hold, near_section, near_sections, with_section, Dirty,
};
use crate::lighting::terrain::{block_of_ground, lit_block, plaza_height, terrain_block, torch_at, torch_spots};
use crate::lighting::world::{Rules, World};
use crate::voxel::ground::ground_at;
use crate::voxel::shape::{Pos, Shape};

verus! {

/// A block lies within 15 of `p` along x and z, and within 15 of the stretch from the lowest to the
/// highest of `p` and two heights along y.
pub open spec fn is_reached(p: Pos, old_floor: int, new_floor: int, q: Pos) -> bool {
    &&& p.x - 15 <= q.x <= p.x + 15
    &&& p.z - 15 <= q.z <= p.z + 15
    &&& p.y - 15 <= q.y || old_floor - 15 <= q.y || new_floor - 15 <= q.y
    &&& q.y <= p.y + 15 || q.y <= old_floor + 15 || q.y <= new_floor + 15
}

/// Each section of a layer is in one of its rows.
proof fn layer_is_of(sh: Shape, c: Pos, n: int, m: int, s: u32) -> (q: Pos)
    requires
        0 <= n,
        layer_of_sections(sh, c, n, m).contains(s),
    ensures
        c.x <= q.x < c.x + n,
        c.z <= q.z < c.z + m,
        q.y == c.y,
        sh.section(q) as u32 == s,
    decreases m,
{
    let before = layer_of_sections(sh, c, n, m - 1);
    let row = row_of_sections(sh, Pos { z: c.z + m - 1, ..c }, n);
    let all = layer_of_sections(sh, c, n, m);
    let i = choose|i: int| 0 <= i < all.len() && all[i] == s;
    if i < before.len() {
        assert(before[i] == s);
        layer_is_of(sh, c, n, m - 1, s)
    } else {
        assert(row[i - before.len()] == s);
        Pos { x: c.x + i - before.len(), y: c.y, z: c.z + m - 1 }
    }
}

/// Each section of a box is in one of its layers.
proof fn box_is_of(sh: Shape, c: Pos, n: int, m: int, h: int, s: u32) -> (q: Pos)
    requires
        0 <= n,
        box_of_sections(sh, c, n, m, h).contains(s),
    ensures
        c.x <= q.x < c.x + n,
        c.z <= q.z < c.z + m,
        c.y <= q.y < c.y + h,
        sh.section(q) as u32 == s,
    decreases h,
{
    let before = box_of_sections(sh, c, n, m, h - 1);
    let layer = layer_of_sections(sh, Pos { y: c.y + h - 1, ..c }, n, m);
    let all = box_of_sections(sh, c, n, m, h);
    let i = choose|i: int| 0 <= i < all.len() && all[i] == s;
    if i < before.len() {
        assert(before[i] == s);
        box_is_of(sh, c, n, m, h - 1, s)
    } else {
        assert(layer[i - before.len()] == s);
        layer_is_of(sh, Pos { y: c.y + h - 1, ..c }, n, m, s)
    }
}

/// A block of section `c` along one axis that is no further than 15 from `lo` to `hi`.
proof fn nearest_in(c: int, lo: int, hi: int, n: int) -> (a: int)
    requires
        0 <= n,
        0 <= lo <= hi <= n * 16,
        reach_lo(lo) <= c <= reach_hi(hi, n),
    ensures
        0 <= a < n * 16,
        a / 16 == c,
        lo - 15 <= a <= hi + 15,
{
    if c * 16 < lo - 15 {
        lo - 15
    } else {
        c * 16
    }
}

/// The sections that an edit relights are those with a block that it reaches, and no others.
pub proof fn edits_relight_what_they_reach(sh: Shape, p: Pos, old_floor: int, new_floor: int, s: u32)
    requires
        sh.wf(),
        sh.sections() <= u32::MAX,
        sh.has(p),
        0 <= old_floor <= sh.ny * 16,
        0 <= new_floor <= sh.ny * 16,
    ensures
        within_reach(sh, p, old_floor, new_floor).contains(s) <==> exists|q: Pos|
            sh.has(q) && is_reached(p, old_floor, new_floor, q) && #[trigger] sh.section_of(q) == s,
{
    let lo = if p.y <= old_floor && p.y <= new_floor {
        p.y
    } else if old_floor <= new_floor {
        old_floor
    } else {
        new_floor
    };
    let top = if old_floor >= new_floor {
        old_floor
    } else {
        new_floor
    };
    let hi = if p.y >= top {
        p.y
    } else {
        top
    };
    let c = Pos { x: reach_lo(p.x), y: reach_lo(lo), z: reach_lo(p.z) };
    let n = reach_hi(p.x, sh.nx) - c.x + 1;
    let m = reach_hi(p.z, sh.nz) - c.z + 1;
    let h = reach_hi(hi, sh.ny) - c.y + 1;
    assert(within_reach(sh, p, old_floor, new_floor) == box_of_sections(sh, c, n, m, h));
    if within_reach(sh, p, old_floor, new_floor).contains(s) {
        let b = box_is_of(sh, c, n, m, h, s);
        let x = nearest_in(b.x, p.x, p.x, sh.nx);
        let y = nearest_in(b.y, lo, hi, sh.ny);
        let z = nearest_in(b.z, p.z, p.z, sh.nz);
        let q = Pos { x, y, z };
        assert(sh.section_pos_of(q) == b);
        sh.section_round_trip(b);
        assert(sh.has(q) && is_reached(p, old_floor, new_floor, q) && sh.section_of(q) == s);
    }
    if exists|q: Pos| sh.has(q) && is_reached(p, old_floor, new_floor, q) && #[trigger] sh.section_of(q) == s {
        let q = choose|q: Pos| sh.has(q) && is_reached(p, old_floor, new_floor, q) && #[trigger] sh.section_of(q) == s;
        let b = sh.section_pos_of(q);
        box_holds(sh, c, n, m, h, b);
    }
}

/// A section lies beside `c` or in its column, no more than one above it.
pub open spec fn is_beside_or_below(c: Pos, q: Pos) -> bool {
    -1 <= q.x - c.x <= 1 && -1 <= q.z - c.z <= 1 && q.y <= c.y + 1
}

/// A section lies around `c`, or is it.
pub open spec fn is_next_to(c: Pos, q: Pos) -> bool {
    -1 <= q.x - c.x <= 1 && -1 <= q.y - c.y <= 1 && -1 <= q.z - c.z <= 1
}

/// A list with a section more has no other.
proof fn one_more(sh: Shape, before: Seq<u32>, c: Pos, s: u32)
    requires
        before.no_duplicates(),
    ensures
        with_section(sh, before, c).no_duplicates(),
        with_section(sh, before, c).contains(s) ==> before.contains(s) || (sh.has_section(c) && sh.section(c) as u32 == s),
{
    let all = with_section(sh, before, c);
    if all.contains(s) && all.len() > before.len() {
        let i = choose|i: int| 0 <= i < all.len() && all[i] == s;
        if i < before.len() {
            assert(before[i] == s);
        }
    }
}

/// Each of the sections beside and below is one.
proof fn columns_are_of(sh: Shape, c: Pos, k: int, s: u32)
    requires
        0 <= c.y,
        k <= 9 * (c.y + 2),
    ensures
        column_sections(sh, c, k).no_duplicates(),
        column_sections(sh, c, k).contains(s) ==> exists|q: Pos|
            is_beside_or_below(c, q) && sh.has_section(q) && #[trigger] sh.section(q) as u32 == s,
    decreases k,
{
    if k > 0 {
        columns_are_of(sh, c, k - 1, s);
        let q = column_section(c, k - 1);
        one_more(sh, column_sections(sh, c, k - 1), q, s);
        let n = c.y + 2;
        let a = (k - 1) / n;
        vstd::arithmetic::div_mod::lemma_fundamental_div_mod(k - 1, n);
        assert(0 <= (k - 1) % n < n);
        assert(0 <= a < 9) by (nonlinear_arith)
            requires
                0 < n,
                0 <= k - 1 < 9 * n,
                a == (k - 1) / n,
        ;
        assert(is_beside_or_below(c, q));
        if sh.has_section(q) && sh.section(q) as u32 == s {
            assert(is_beside_or_below(c, q) && sh.has_section(q) && sh.section(q) as u32 == s);
        }
    }
}

/// Each of the sections around is one.
proof fn near_are_of(sh: Shape, c: Pos, k: int, s: u32)
    requires
        k <= 27,
    ensures
        near_sections(sh, c, k).no_duplicates(),
        near_sections(sh, c, k).contains(s) ==> exists|q: Pos|
            is_next_to(c, q) && sh.has_section(q) && #[trigger] sh.section(q) as u32 == s,
    decreases k,
{
    if k > 0 {
        near_are_of(sh, c, k - 1, s);
        let q = near_section(c, k - 1);
        one_more(sh, near_sections(sh, c, k - 1), q, s);
        assert(is_next_to(c, q));
        if sh.has_section(q) && sh.section(q) as u32 == s {
            assert(is_next_to(c, q) && sh.has_section(q) && sh.section(q) as u32 == s);
        }
    }
}

/// An edit after which a block takes more light starts again every section of the world beside it
/// and below, up to one above; one after which it only gives less, every section around it; any
/// other starts none again. No section is named twice.
pub proof fn edits_start_sections_again(sh: Shape, rules: &Rules, p: Pos, old: u16, new: u16, dirty: Dirty, s: u32)
    requires
        sh.wf(),
        sh.sections() <= u32::MAX,
        sh.has(p),
        is_dirty(sh, rules, p, old, new, dirty),
    ensures
        ({
            let c = Pos { x: p.x / 16, y: p.y / 16, z: p.z / 16 };
            &&& dirty.reset@.no_duplicates()
            &&& rules.takes(new) > rules.takes(old) ==> (dirty.reset@.contains(s) <==> exists|q: Pos|
                is_beside_or_below(c, q) && sh.has_section(q) && #[trigger] sh.section(q) == s)
            &&& rules.takes(new) <= rules.takes(old) && rules.emits(new) < rules.emits(old) ==> (
            dirty.reset@.contains(s) <==> exists|q: Pos|
                is_next_to(c, q) && sh.has_section(q) && #[trigger] sh.section(q) == s)
            &&& rules.takes(new) <= rules.takes(old) && rules.emits(new) >= rules.emits(old) ==> dirty.reset@.len() == 0
        }),
{
    let c = Pos { x: p.x / 16, y: p.y / 16, z: p.z / 16 };
    columns_are_of(sh, c, 9 * (c.y + 2), s);
    near_are_of(sh, c, 27, s);
    let all = dirty.reset@;
    if rules.takes(new) > rules.takes(old) {
        if all.contains(s) {
            let q = choose|q: Pos| is_beside_or_below(c, q) && sh.has_section(q) && #[trigger] sh.section(q) as u32 == s;
            sh.section_round_trip(q);
            assert(sh.section(q) == s);
        }
        if exists|q: Pos| is_beside_or_below(c, q) && sh.has_section(q) && #[trigger] sh.section(q) == s {
            let q = choose|q: Pos| is_beside_or_below(c, q) && sh.has_section(q) && #[trigger] sh.section(q) == s;
            columns_hold(sh, c, q);
        }
    } else if rules.emits(new) < rules.emits(old) {
        if all.contains(s) {
            let q = choose|q: Pos| is_next_to(c, q) && sh.has_section(q) && #[trigger] sh.section(q) as u32 == s;
            sh.section_round_trip(q);
            assert(sh.section(q) == s);
        }
        if exists|q: Pos| is_next_to(c, q) && sh.has_section(q) && #[trigger] sh.section(q) == s {
            let q = choose|q: Pos| is_next_to(c, q) && sh.has_section(q) && #[trigger] sh.section(q) == s;
            near_hold(sh, c, q);
        }
    }
}

/// What is relit is what starts again and the edited section, each once.
pub proof fn the_edited_section_is_relit(sh: Shape, rules: &Rules, p: Pos, old: u16, new: u16, dirty: Dirty, s: u32)
    requires
        sh.wf(),
        sh.sections() <= u32::MAX,
        sh.has(p),
        is_dirty(sh, rules, p, old, new, dirty),
    ensures
        dirty.list@.contains(s) <==> dirty.reset@.contains(s) || s == sh.section_of(p),
        dirty.list@.no_duplicates(),
{
    edits_start_sections_again(sh, rules, p, old, new, dirty, s);
    let e = sh.section_of(p) as u32;
    sh.section_round_trip(sh.section_pos_of(p));
    let all = dirty.list@;
    if all.len() > dirty.reset@.len() {
        assert(all[dirty.reset@.len() as int] == e);
        assert forall|x: u32| #[trigger] all.contains(x) <==> dirty.reset@.contains(x) || x == e by {
            if dirty.reset@.contains(x) {
                let i = dirty.reset@.index_of(x);
                assert(all[i] == x);
            }
        }
    }
}

/// Of two numbers with a digit below `n` behind them, the one with the lower front is lower, and
/// with the same front the one with the lower digit.
proof fn front_first(a: int, b: int, x: int, y: int, n: int)
    requires
        0 <= x < n,
        0 <= y < n,
    ensures
        a * n + x < b * n + y <==> a < b || (a == b && x < y),
        a * n + x == b * n + y <==> a == b && x == y,
{
    if a < b {
        assert(a * n + n <= b * n) by (nonlinear_arith)
            requires
                a < b,
                0 < n,
        ;
    } else if b < a {
        assert(b * n + n <= a * n) by (nonlinear_arith)
            requires
                b < a,
                0 < n,
        ;
    }
}

/// Faces are ordered by x, then y, then z, then direction, width, height, occlusion, block and quad.
pub proof fn faces_are_ordered_by(f: Face, g: Face)
    ensures
        face_order(f) < face_order(g) <==> {
            ||| f.pos[0] < g.pos[0]
            ||| f.pos[0] == g.pos[0] && {
                ||| f.pos[1] < g.pos[1]
                ||| f.pos[1] == g.pos[1] && {
                    ||| f.pos[2] < g.pos[2]
                    ||| f.pos[2] == g.pos[2] && {
                        ||| f.dir < g.dir
                        ||| f.dir == g.dir && {
                            ||| f.w < g.w
                            ||| f.w == g.w && {
                                ||| f.h < g.h
                                ||| f.h == g.h && {
                                    ||| f.ao < g.ao
                                    ||| f.ao == g.ao && {
                                        ||| f.state < g.state
                                        ||| f.state == g.state && f.quad < g.quad
                                    }
                                }
                            }
                        }
                    }
                }
            }
        },
{
    let (a1, b1) = (f.pos[0] * 256 + f.pos[1], g.pos[0] * 256 + g.pos[1]);
    front_first(f.pos[0] as int, g.pos[0] as int, f.pos[1] as int, g.pos[1] as int, 256);
    let (a2, b2) = (a1 * 256 + f.pos[2], b1 * 256 + g.pos[2]);
    front_first(a1, b1, f.pos[2] as int, g.pos[2] as int, 256);
    let (a3, b3) = (a2 * 256 + f.dir, b2 * 256 + g.dir);
    front_first(a2, b2, f.dir as int, g.dir as int, 256);
    let (a4, b4) = (a3 * 256 + f.w, b3 * 256 + g.w);
    front_first(a3, b3, f.w as int, g.w as int, 256);
    let (a5, b5) = (a4 * 256 + f.h, b4 * 256 + g.h);
    front_first(a4, b4, f.h as int, g.h as int, 256);
    let (a6, b6) = (a5 * 256 + f.ao, b5 * 256 + g.ao);
    front_first(a5, b5, f.ao as int, g.ao as int, 256);
    let (a7, b7) = (a6 * 65536 + f.state, b6 * 65536 + g.state);
    front_first(a6, b6, f.state as int, g.state as int, 65536);
    front_first(a7, b7, f.quad as int, g.quad as int, 65536);
    assert(face_order(f) == a7 * 65536 + f.quad);
    assert(face_order(g) == b7 * 65536 + g.quad);
}

/// A packed face is of the direction that counts 2^12 in its first word, and that word is below
/// 2^31.
pub proof fn a_packed_face_tells_its_direction(words: [u32; 2], d: int)
    ensures
        is_of(words, d) <==> words[0] < 0x8000_0000 && (words[0] / 4096) % 8 == d,
{
    let a = words[0];
    assert((a >> 31 == 0 <==> a < 0x8000_0000) && (a >> 12) & 7 == (a / 4096) % 8) by (bit_vector);
}

/// The six runs of a slot follow each other, each as long as its count; what is read of a slot is
/// all of them, in that order.
pub proof fn runs_follow_each_other(m: SectionMesh, faces: Seq<[u32; 2]>)
    ensures
        faces_before(m, 0) == 0,
        faces_before(m, 1) == m.count[0],
        faces_before(m, 2) == m.count[0] + m.count[1],
        faces_before(m, 3) == m.count[0] + m.count[1] + m.count[2],
        faces_before(m, 4) == m.count[0] + m.count[1] + m.count[2] + m.count[3],
        faces_before(m, 5) == m.count[0] + m.count[1] + m.count[2] + m.count[3] + m.count[4],
        faces_before(m, 6) == m.count[0] + m.count[1] + m.count[2] + m.count[3] + m.count[4] + m.count[5],
        m.offset == u32::MAX ==> slot_faces(m, faces).len() == 0,
        m.offset != u32::MAX ==> slot_faces(m, faces).len() == m.count[0] + m.count[1] + m.count[2] + m.count[3]
            + m.count[4] + m.count[5],
        is_sound(m, faces) && m.offset != u32::MAX ==> m.count[0] + m.count[1] + m.count[2] + m.count[3] + m.count[4]
            + m.count[5] + m.translucent <= m.capacity,
{
    reveal_with_fuel(faces_before, 7);
}

/// The sections of one column are a layer's sections apart, and the lowest has the column's own
/// number; two blocks are in one column of sections exactly where their x and z are in the same
/// sixteen.
pub proof fn sections_stand_on_their_column(sh: Shape, p: Pos, q: Pos)
    requires
        sh.wf(),
        sh.has(p),
        sh.has(q),
    ensures
        sh.section_of(p) == section_column(sh, p) + (sh.nx * sh.nz) * (p.y / 16),
        section_column(sh, p) == section_column(sh, q) <==> p.x / 16 == q.x / 16 && p.z / 16 == q.z / 16,
{
    reveal(Shape::section);
    let (a, b, c) = (sh.nx as int, sh.nz as int, p.y / 16);
    let d = p.z / 16;
    assert(a * (d + b * c) == a * d + (a * b) * c) by (nonlinear_arith);
    front_first(p.z / 16, q.z / 16, p.x / 16, q.x / 16, sh.nx as int);
    assert((p.z / 16) * sh.nx == sh.nx * (p.z / 16)) by (nonlinear_arith);
    assert((q.z / 16) * sh.nx == sh.nx * (q.z / 16)) by (nonlinear_arith);
}

/// An update sets three words for each relax pass and three more: the sections are the work of the
/// first pass, and the later ones have none yet. Each pass reads its own three words, and what is
/// copied and filled is as long as what is set: four bytes a word.
pub proof fn each_pass_has_its_arguments(l: Lighting, columns: int, sections: int, u: Update, k: int)
    requires
        l.fits(),
        0 <= columns <= usize::MAX,
        0 <= sections <= l.section_count,
        is_update(l, columns, sections, u),
    ensures
        u.args@.len() == 39,
        u.reset.args == 4 * u.args@.len(),
        u.reset.list == 4 * sections,
        u.reset.stamps == 4 * l.section_count,
        u.reset.stats == 16,
        u.args@[0] == sections,
        0 <= k < 13 ==> u.args@[3 * k + 1] == 1 && u.args@[3 * k + 2] == 1,
        1 <= k < 13 ==> u.args@[3 * k] == 0,
        sections > 0 && 0 <= k < 12 ==> {
            let d = u.dispatches@[u.dispatches@.len() - 12 + k];
            &&& d.kernel == Kernel::Relax
            &&& d.params.pass == k
            &&& d.groups == Groups::Indirect { at: (12 * k) as usize }
            &&& 12 * k + 12 <= u.reset.args
        },
{
    assert((3 * k + 1) % 3 == 1 && (3 * k + 2) % 3 == 2 && (3 * k) % 3 == 0);
    if sections > 0 && 0 <= k < 12 {
        let all = dispatches(l, columns as usize, sections as usize);
        let r = relaxes(l, 12);
        assert(all[all.len() - 12 + k] == r[k]);
    }
}

/// The heights of terrain are listed row by row: where the list holds `height(x, z)` at the `x`th of
/// row `z`, the block at a position is ground by the height of its own column.
pub proof fn heights_are_listed_by_rows(
    sh: Shape,
    height: spec_fn(int, int) -> usize,
    heights: Seq<usize>,
    caves: Seq<bool>,
    p: Pos,
)
    requires
        sh.wf(),
        sh.has(p),
        heights.len() == (sh.nx * 16) * (sh.nz * 16),
        forall|i: int| 0 <= i < heights.len() ==> #[trigger] heights[i] == height(i % (sh.nx * 16), i / (sh.nx * 16)),
    ensures
        terrain_block(sh, heights, caves, p) == block_of_ground(
            ground_at(sh.ny * 16, height(p.x, p.z) as int, caves[sh.place(p)], p.y),
        ),
{
    let w = sh.nx * 16;
    let i = p.x + w * p.z;
    assert(w * p.z == p.z * w) by (nonlinear_arith);
    vstd::arithmetic::div_mod::lemma_fundamental_div_mod_converse(i, w, p.z, p.x);
    assert(0 <= i < w * (sh.nz * 16)) by (nonlinear_arith)
        requires
            0 <= p.x < w,
            0 <= p.z,
            p.z + 1 <= sh.nz * 16,
            i == p.x + w * p.z,
    ;
    assert(heights[i] == height(i % w, i / w));
}

/// Outside the world there is air.
pub proof fn terrain_ends_with_the_world(sh: Shape, heights: Seq<usize>, caves: Seq<bool>, p: Pos)
    requires
        !sh.has(p),
    ensures
        terrain_block(sh, heights, caves, p) == 0,
{
}

/// The torches that are told of are those that stand on the plaza: a block within 20 of the centre
/// is a torch exactly where one of the six is.
pub proof fn the_torches_stand_on_the_plaza(cx: int, y: int, cz: int, x: int, z: int, h: int, old: u16)
    requires
        20 <= cx <= i32::MAX - 20,
        20 <= cz <= i32::MAX - 20,
        0 <= y <= i32::MAX,
        -20 <= x < 20,
        -20 <= z < 20,
    ensures
        torch_spots(cx, y, cz).len() == 6,
        lit_block(x, 1, z, h, old) == 9 <==> exists|k: int|
            0 <= k < 6 && (#[trigger] torch_spots(cx, y, cz)[k])@ == seq![(cx + x) as usize, y as usize, (cz + z) as usize],
{
    let s = torch_spots(cx, y, cz);
    let want = seq![(cx + x) as usize, y as usize, (cz + z) as usize];
    assert forall|k: int| 0 <= k < 6 && (#[trigger] s[k])@ == want implies torch_at(x, z) by {
        assert(s[k]@[0] == want[0] && s[k]@[2] == want[2]);
    }
    if torch_at(x, z) {
        assert(s[0]@ =~= want || s[1]@ =~= want || s[2]@ =~= want || s[3]@ =~= want || s[4]@ =~= want || s[5]@ =~= want);
    }
}

/// The top block of a column is not air, and everything between it and where the search starts is;
/// without one all of it is air.
pub proof fn the_highest_block_is_the_first_from_above(w: &World, x: int, z: int, below: int, y: int)
    requires
        0 <= below <= i32::MAX,
    ensures
        match w.highest(x, z, below) {
            Some(top) => {
                &&& top < below
                &&& w.at(Pos { x, y: top as int, z }) != 0
                &&& top < y < below ==> w.at(Pos { x, y, z }) == 0
            },
            None => 0 <= y < below ==> w.at(Pos { x, y, z }) == 0,
        },
    decreases below,
{
    if below > 0 && w.at(Pos { x, y: below - 1, z }) == 0 {
        the_highest_block_is_the_first_from_above(w, x, z, below - 1, y);
    }
}

/// The plaza is as high as the top block of the column in the middle of the world, and never lower
/// than 8: above it there is air in that column.
pub proof fn the_plaza_is_as_high_as_the_middle(w: &World, y: int)
    requires
        w.wf(),
    ensures
        ({
            let h = plaza_height(w);
            let (x, z) = ((w.nx * 16) / 2, (w.nz * 16) / 2);
            &&& 8 <= h
            &&& h < y < w.ny * 16 ==> w.at(Pos { x, y, z }) == 0
            &&& h > 8 ==> w.at(Pos { x, y: h, z }) != 0
        }),
{
    the_highest_block_is_the_first_from_above(w, (w.nx * 16) / 2, (w.nz * 16) / 2, w.ny * 16, y);
}

/// What is read of a slot is what stands in it, in order: both words of each face from one place.
pub proof fn slots_are_read_in_order(m: SectionMesh, faces: Seq<[u32; 2]>, i: int)
    requires
        m.offset != u32::MAX,
        0 <= i < slot_faces(m, faces).len(),
    ensures
        slot_faces(m, faces)[i] == Face::unpacked(faces[m.offset + i][0], faces[m.offset + i][1]),
{
}

} // verus!
