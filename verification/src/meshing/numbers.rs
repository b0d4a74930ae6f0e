//! What is meshed and drawn, number by number.
use vstd::prelude::*;

use crate::lighting::falloff::touch;
use crate::meshing::bmp::{blue_green_red, header, le32, le32s, padded_row, row_bytes, rows_up};
use crate::meshing::coverage::{is_visible_face, plain_mesh_is_exact};
use crate::meshing::cpu_mesh::{block_in, face_order, first_block, layer_cell, plain_faces, unit_face};
use crate::meshing::face::{word_a, Face, DIR_U, DIR_V};
use crate::meshing::gpu_types::{CullParams, SectionInfo, SectionMesh};
use crate::meshing::mesher::{all_capacity, all_faces, capacity_of, faces_before, is_of, slot_faces, tops, AllocMode};
use crate::meshing::render::{
    draw_pass, drawn_in, drawn_total, is_cull_params, is_cull_pass, per_instance, CullOutput, CullPass, Draw, DrawOptions, InView, Renderer,
};
use crate::meshing::sweep::{reach, rect_from, rise};
use crate::meshing::world::{beside, block_of_ground, bordered, is_info, standard_faces, terrain_block, touched, Rules, World};
use crate::voxel::ground::{ground_at, Ground};
use crate::voxel::shape::{Pos, Shape};

verus! {

/// The blocks by their numbers, and what can be seen of them: every block but air is seen next to
/// air; behind stone, or any other full block, nothing is; glass does not show next to glass; leaves
/// hide nothing, not even leaves.
pub proof fn standard_sight(rules: &Rules, a: u16, b: u16)
    requires
        rules.is_standard(),
    ensures
        !rules.shows(0, b),
        a != 0 ==> rules.shows(a, 0) && rules.shows(a, 7),
        a != 0 ==> (rules.shows(a, 6) <==> a != 6),
        b != 0 && b != 6 && b != 7 ==> !rules.shows(a, b),
{
    standard_faces(rules, 0, b);
    standard_faces(rules, a, 0);
    standard_faces(rules, a, 6);
    standard_faces(rules, a, 7);
    standard_faces(rules, a, b);
}

/// A packed face as numbers: x, y and z count 1, 16 and 256, the direction 2^12, and the width and
/// the height less one 2^15 and 2^19; in the second word the block counts 1 and the quad 2^16.
pub proof fn a_packed_face_is_its_parts(f: Face)
    requires
        f.fits(),
    ensures
        f.packed().0 == f.pos[0] + 16 * f.pos[1] + 256 * f.pos[2] + 4096 * f.dir + 32768 * (f.w - 1) + 524288 * (f.h - 1),
        f.packed().1 == f.state + 65536 * f.quad,
{
    first_word(f.pos[0], f.pos[1], f.pos[2], f.dir, (f.w - 1) as u8, (f.h - 1) as u8);
    let (state, quad) = (f.state, f.quad);
    assert((state as u32) | ((quad as u32) << 16) == state + 65536 * quad) by (bit_vector);
}

proof fn first_word(x: u8, y: u8, z: u8, dir: u8, w1: u8, h1: u8)
    requires
        x < 16,
        y < 16,
        z < 16,
        dir < 8,
        w1 < 16,
        h1 < 16,
    ensures
        word_a(x, y, z, dir, w1, h1) == x + 16 * y + 256 * z + 4096 * dir + 32768 * w1 + 524288 * h1,
{
    assert((x as u32) | ((y as u32) << 4) | ((z as u32) << 8) | ((dir as u32) << 12) | ((w1 as u32) << 15) | ((h1 as u32)
        << 19) == x + 16 * y + 256 * z + 4096 * dir + 32768 * w1 + 524288 * h1) by (bit_vector)
        requires
            x < 16,
            y < 16,
            z < 16,
            dir < 8,
            w1 < 16,
            h1 < 16,
    ;
}

/// Every side of every block of a section that shows is a face of its plain mesh: at the block's
/// place in the section, in that direction, and of that block; and nothing else is.
pub proof fn every_side_that_shows_is_meshed(world: &World, rules: &Rules, s: int, p: Pos, d: int)
    requires
        world.wf(),
        0 <= s < world.shape().sections(),
        world.shape().has(p),
        world.shape().section_of(p) == s,
        0 <= d < 6,
    ensures
        rules.shows(world.at(p), world.at(p.step(d))) <==> exists|k: int|
            0 <= k < plain_faces(world, rules, s, 24576).len() && {
                let f = #[trigger] plain_faces(world, rules, s, 24576)[k];
                &&& f.pos[0] == p.x % 16
                &&& f.pos[1] == p.y % 16
                &&& f.pos[2] == p.z % 16
                &&& f.dir == d
            },
        forall|k: int|
            0 <= k < plain_faces(world, rules, s, 24576).len() ==> {
                let f = #[trigger] plain_faces(world, rules, s, 24576)[k];
                &&& f.w == 1 && f.h == 1 && f.quad == 0
                &&& f.pos[0] == p.x % 16 && f.pos[1] == p.y % 16 && f.pos[2] == p.z % 16 ==> f.state == world.at(p)
            },
{
    let sh = world.shape();
    sh.section_of_block(p);
    let q = Pos { x: p.x % 16, y: p.y % 16, z: p.z % 16 };
    assert(block_in(sh, s, q) == p);
    let all = plain_faces(world, rules, s, 24576);
    plain_mesh_is_exact(world, rules, s);
    let f = unit_face(q, d, world.at(p));
    if rules.shows(world.at(p), world.at(p.step(d))) {
        assert(crate::meshing::coverage::face_pos(f) == q);
        assert(is_visible_face(world, rules, s, f));
        assert(all.contains(f));
        assert(all[all.index_of(f)] == f);
    }
    assert forall|k: int| 0 <= k < all.len() implies {
        let f = #[trigger] all[k];
        &&& f.w == 1 && f.h == 1 && f.quad == 0
        &&& f.pos[0] == p.x % 16 && f.pos[1] == p.y % 16 && f.pos[2] == p.z % 16 ==> f.state == world.at(p)
        &&& f.pos[0] == p.x % 16 && f.pos[1] == p.y % 16 && f.pos[2] == p.z % 16 && f.dir == d ==> rules.shows(
            world.at(p),
            world.at(p.step(d)),
        )
    } by {
        let f = all[k];
        assert(all.contains(f));
        assert(is_visible_face(world, rules, s, f));
        if f.pos[0] == p.x % 16 && f.pos[1] == p.y % 16 && f.pos[2] == p.z % 16 {
            assert(crate::meshing::coverage::face_pos(f) == q);
        }
    }
}

/// The two axes along a face, by its direction.
pub proof fn axes_of_faces(d: int)
    requires
        0 <= d < 6,
    ensures
        d == 0 ==> DIR_U[d] == 2 && DIR_V[d] == 1,
        d == 1 ==> DIR_U[d] == 1 && DIR_V[d] == 2,
        d == 2 ==> DIR_U[d] == 0 && DIR_V[d] == 2,
        d == 3 ==> DIR_U[d] == 2 && DIR_V[d] == 0,
        d == 4 ==> DIR_U[d] == 1 && DIR_V[d] == 0,
        d == 5 ==> DIR_U[d] == 0 && DIR_V[d] == 1,
{
}

/// A layer is level along the axis of its direction, and its two numbers count along the two axes
/// of its faces.
pub proof fn layers_are_level(d: int, layer: int, u: int, v: int)
    requires
        0 <= d < 6,
    ensures
        d == 0 ==> layer_cell(d, layer, u, v) == (Pos { x: layer, y: v, z: u }),
        d == 1 ==> layer_cell(d, layer, u, v) == (Pos { x: layer, y: u, z: v }),
        d == 2 ==> layer_cell(d, layer, u, v) == (Pos { x: u, y: layer, z: v }),
        d == 3 ==> layer_cell(d, layer, u, v) == (Pos { x: v, y: layer, z: u }),
        d == 4 ==> layer_cell(d, layer, u, v) == (Pos { x: v, y: u, z: layer }),
        d == 5 ==> layer_cell(d, layer, u, v) == (Pos { x: u, y: v, z: layer }),
{
    axes_of_faces(d);
}

/// The cell at place `i` is taken, or of another state than that at `k`.
pub open spec fn is_other(g: Seq<u16>, covered: Set<int>, k: int, i: int) -> bool {
    covered.contains(i) || g[i] != g[k]
}

/// A merged face is as wide as it can be, and after that as high: the cell past its width is past
/// the row, taken, or of another state, and in the row past its height some cell is, or it is past
/// the grid.
pub proof fn merged_faces_are_widest_and_highest(g: Seq<u16>, covered: Set<int>, k: int)
    requires
        0 <= k < 256,
        !covered.contains(k),
    ensures
        ({
            let r = rect_from(g, covered, k);
            &&& k % 16 + r.w == 16 || covered.contains(k + r.w) || g[k + r.w] != g[k]
            &&& k / 16 + r.h == 16 || exists|j: int|
                0 <= j < r.w && #[trigger] is_other(g, covered, k, k + 16 * r.h + j)
        }),
{
    crate::meshing::sweep::rect_is(g, covered, k);
    let w = reach(g, covered, k, 1);
    width_ends(g, covered, k, 1);
    height_ends(g, covered, k, w, 1);
}

proof fn width_ends(g: Seq<u16>, covered: Set<int>, k: int, w: int)
    requires
        0 <= k < 256,
        1 <= w,
        k % 16 + w <= 16,
    ensures
        ({
            let e = reach(g, covered, k, w);
            e <= 16 && (k % 16 + e == 16 || covered.contains(k + e) || g[k + e] != g[k])
        }),
    decreases 16 - w,
{
    if k % 16 + w < 16 && crate::meshing::sweep::joins(g, covered, k, k + w) {
        width_ends(g, covered, k, w + 1);
    }
}

proof fn height_ends(g: Seq<u16>, covered: Set<int>, k: int, w: int, h: int)
    requires
        0 <= k < 256,
        1 <= h,
        k / 16 + h <= 16,
    ensures
        ({
            let e = rise(g, covered, k, w, h);
            &&& e <= 16
            &&& k / 16 + e == 16 || exists|j: int|
                0 <= j < w && #[trigger] is_other(g, covered, k, k + 16 * e + j)
        }),
    decreases 16 - h,
{
    if k / 16 + h < 16 {
        if crate::meshing::sweep::row_joins(g, covered, k, w, h) {
            height_ends(g, covered, k, w, h + 1);
        } else {
            let j = choose|j: int| 0 <= j < w && !(#[trigger] crate::meshing::sweep::joins(g, covered, k, k + 16 * h + j));
            assert(is_other(g, covered, k, k + 16 * h + j));
        }
    }
}

/// Faces are ordered by x, then y, then z, then direction.
pub proof fn faces_are_ordered_by_place(f: Face, g: Face)
    ensures
        f.pos[0] < g.pos[0] ==> face_order(f) < face_order(g),
        f.pos[0] == g.pos[0] && f.pos[1] < g.pos[1] ==> face_order(f) < face_order(g),
        f.pos[0] == g.pos[0] && f.pos[1] == g.pos[1] && f.pos[2] < g.pos[2] ==> face_order(f) < face_order(g),
        f.pos == g.pos && f.dir < g.dir ==> face_order(f) < face_order(g),
{
}

/// The sections that an edit touches are those of the block and of the blocks that share a face with
/// it.
pub proof fn touched_sections_share_a_face(sh: Shape, p: Pos, s: u32)
    requires
        sh.wf(),
        sh.sections() <= u32::MAX,
        sh.has(p),
    ensures
        touched(sh, p, 3).contains(s) <==> sh.section_of(p) == s || exists|q: Pos| #[trigger]
            touch(p, q) && sh.has(q) && sh.section_of(q) == s,
{
    sh.section_of_block(p);
    let all = touched(sh, p, 3);
    let (b0, b1, b2) = (bordered(sh, p, 0), bordered(sh, p, 1), bordered(sh, p, 2));
    let (t0, t1, t2) = (touched(sh, p, 0), touched(sh, p, 1), touched(sh, p, 2));
    reveal_with_fuel(touched, 4);
    borders_are_beside(sh, p, 0);
    borders_are_beside(sh, p, 1);
    borders_are_beside(sh, p, 2);
    assert(t0[0] == sh.section_of(p) as u32);
    assert(all[0] == t0[0]);
    assert(forall|x: u32| #[trigger] t0.contains(x) ==> x == t0[0]);
    if b0 is Some {
        assert(t1[1] == sh.section(b0->0) as u32);
        assert(all[1] == t1[1]);
    }
    if b1 is Some {
        assert(t2[t1.len() as int] == sh.section(b1->0) as u32);
        assert(all[t1.len() as int] == t2[t1.len() as int]);
    }
    if b2 is Some {
        assert(all[t2.len() as int] == sh.section(b2->0) as u32);
    }
    if all.contains(s) {
        let i = all.index_of(s);
        if i == 0 {
        } else if i < t1.len() {
            assert(all[i] == t1[i]);
        } else if i < t2.len() {
            assert(all[i] == t2[i]);
        }
    }
    if exists|q: Pos| #[trigger] touch(p, q) && sh.has(q) && sh.section_of(q) == s {
        let q = choose|q: Pos| #[trigger] touch(p, q) && sh.has(q) && sh.section_of(q) == s;
        beside_is_bordered(sh, p, q);
    }
}

/// A bordered section is that of a block that shares a face with `p`.
proof fn borders_are_beside(sh: Shape, p: Pos, axis: int)
    requires
        sh.wf(),
        sh.sections() <= u32::MAX,
        sh.has(p),
        0 <= axis < 3,
    ensures
        match bordered(sh, p, axis) {
            Some(c) => exists|q: Pos| #[trigger] touch(p, q) && sh.has(q) && sh.section_of(q) == sh.section(c) as u32,
            None => true,
        },
{
    let (x, y, z) = (p.x, p.y, p.z);
    let (lo, hi) = if axis == 0 {
        (Pos { x: x - 1, y, z }, Pos { x: x + 1, y, z })
    } else if axis == 1 {
        (Pos { x, y: y - 1, z }, Pos { x, y: y + 1, z })
    } else {
        (Pos { x, y, z: z - 1 }, Pos { x, y, z: z + 1 })
    };
    assert(touch(p, lo) && touch(p, hi));
    if let Some(c) = bordered(sh, p, axis) {
        let a = if axis == 0 {
            x
        } else if axis == 1 {
            y
        } else {
            z
        };
        if a % 16 == 0 && a / 16 > 0 {
            assert((a - 1) / 16 == a / 16 - 1);
            assert(sh.has(lo));
            assert(sh.section_pos_of(lo) == c);
            sh.section_of_block(lo);
            assert(sh.section_of(lo) == sh.section(c) as u32);
        } else {
            assert((a + 1) / 16 == a / 16 + 1);
            assert(sh.has(hi));
            assert(sh.section_pos_of(hi) == c);
            sh.section_of_block(hi);
            assert(sh.section_of(hi) == sh.section(c) as u32);
        }
    }
}

/// A block that shares a face is in the same section, or in a bordered one.
proof fn beside_is_bordered(sh: Shape, p: Pos, q: Pos)
    requires
        sh.wf(),
        sh.has(p),
        sh.has(q),
        touch(p, q),
    ensures
        sh.section_of(q) == sh.section_of(p) || (exists|axis: int|
            0 <= axis < 3 && (#[trigger] bordered(sh, p, axis)) == Some(sh.section_pos_of(q))),
        sh.section_of(q) == sh.section_of(p) || bordered(sh, p, 0) == Some(sh.section_pos_of(q)) || bordered(sh, p, 1) == Some(
            sh.section_pos_of(q),
        ) || bordered(sh, p, 2) == Some(sh.section_pos_of(q)),
{
    let (c, e) = (sh.section_pos_of(p), sh.section_pos_of(q));
    let axis: int = if q.x != p.x {
        0
    } else if q.y != p.y {
        1
    } else {
        2
    };
    let (a, b) = if axis == 0 {
        (p.x, q.x)
    } else if axis == 1 {
        (p.y, q.y)
    } else {
        (p.z, q.z)
    };
    if b == a + 1 {
        if a % 16 == 15 {
            assert(b / 16 == a / 16 + 1);
        } else {
            assert(b / 16 == a / 16);
        }
    } else {
        if a % 16 == 0 {
            assert(b / 16 == a / 16 - 1);
        } else {
            assert(b / 16 == a / 16);
        }
    }
    if b / 16 == a / 16 {
        assert(c == e);
    } else {
        assert(bordered(sh, p, axis) == Some(e));
    }
}

/// A number's four bytes are worth it, the lowest first.
pub proof fn numbers_are_lowest_first(v: u32)
    ensures
        le32(v).len() == 4,
        le32(v)[0] + 256 * le32(v)[1] + 65536 * le32(v)[2] + 16777216 * le32(v)[3] == v,
{
}

/// A row is three bytes a pixel, filled up to the next multiple of four.
pub proof fn rows_are_filled_up(w: int, pixels: Seq<[u8; 4]>)
    requires
        0 <= w,
        pixels.len() == w,
    ensures
        row_bytes(w) % 4 == 0,
        3 * w <= row_bytes(w) < 3 * w + 4,
        padded_row(pixels, w).len() == row_bytes(w),
        forall|i: int| 3 * w <= i < row_bytes(w) ==> #[trigger] padded_row(pixels, w)[i] == 0,
{
    pixels_are_blue_green_red(pixels, 0);
}

/// Of each pixel the blue, the green and the red are kept, in that order.
pub proof fn pixels_are_blue_green_red(pixels: Seq<[u8; 4]>, i: int)
    ensures
        blue_green_red(pixels).len() == 3 * pixels.len(),
        0 <= i < pixels.len() ==> {
            &&& blue_green_red(pixels)[3 * i] == pixels[i][2]
            &&& blue_green_red(pixels)[3 * i + 1] == pixels[i][1]
            &&& blue_green_red(pixels)[3 * i + 2] == pixels[i][0]
        },
    decreases pixels.len(),
{
    if pixels.len() > 0 {
        pixels_are_blue_green_red(pixels.drop_last(), i);
    }
}

/// The rows are from the bottom up: the first is the last of the image.
pub proof fn rows_are_from_the_bottom(w: int, h: int, rgba: Seq<[u8; 4]>, n: int, k: int)
    requires
        0 <= w,
        0 <= k < n <= h,
        h * w <= rgba.len(),
    ensures
        rows_up(w, h, rgba, n).len() == n * row_bytes(w),
        0 <= k * row_bytes(w) <= (k + 1) * row_bytes(w) <= n * row_bytes(w),
        0 <= (h - 1 - k) * w <= (h - k) * w <= rgba.len(),
        rows_up(w, h, rgba, n).subrange(k * row_bytes(w), (k + 1) * row_bytes(w)) == padded_row(
            rgba.subrange((h - 1 - k) * w, (h - k) * w),
            w,
        ),
    decreases n,
{
    let t = row_bytes(w);
    rows_up_len(w, h, rgba, n);
    rows_up_len(w, h, rgba, n - 1);
    assert(0 <= k * t && k * t <= (k + 1) * t && (k + 1) * t <= n * t) by (nonlinear_arith)
        requires
            0 <= k,
            k + 1 <= n,
            0 <= t,
    ;
    assert(0 <= (h - 1 - k) * w && (h - 1 - k) * w <= (h - k) * w && (h - k) * w <= h * w) by (nonlinear_arith)
        requires
            0 <= k,
            k + 1 <= h,
            0 <= w,
    ;
    let all = rows_up(w, h, rgba, n);
    if k == n - 1 {
        assert(h - n == h - 1 - k && h - n + 1 == h - k);
        let row = rgba.subrange((h - n) * w, (h - n + 1) * w);
        assert((h - k) * w - (h - 1 - k) * w == w) by (nonlinear_arith);
        rows_are_filled_up(w, row);
        assert(all.subrange(k * t, (k + 1) * t) =~= padded_row(row, w));
    } else {
        rows_are_from_the_bottom(w, h, rgba, n - 1, k);
        assert(all.subrange(k * t, (k + 1) * t) =~= rows_up(w, h, rgba, n - 1).subrange(k * t, (k + 1) * t));
    }
}

proof fn rows_up_len(w: int, h: int, rgba: Seq<[u8; 4]>, n: int)
    requires
        0 <= w,
        0 <= n <= h,
        h * w <= rgba.len(),
    ensures
        rows_up(w, h, rgba, n).len() == n * row_bytes(w),
    decreases n,
{
    let t = row_bytes(w);
    if n > 0 {
        rows_up_len(w, h, rgba, n - 1);
        assert((n - 1) * t + t == n * t) by (nonlinear_arith);
        assert(0 <= (h - n) * w && (h - n + 1) * w <= h * w && (h - n + 1) * w - (h - n) * w == w) by (nonlinear_arith)
            requires
                1 <= n <= h,
                0 <= w,
        ;
        rows_are_filled_up(w, rgba.subrange((h - n) * w, (h - n + 1) * w));
    } else {
        assert(0 * t == 0);
    }
}

/// The header of an image says how long it is, where its rows start, how wide and how high it is,
/// that a pixel is 24 bits, and how long the rows are.
pub proof fn the_header_says_the_size(w: int, h: int)
    ensures
        header(w, h) == seq![66u8, 77] + le32((54 + row_bytes(w) * h) as u32) + le32(0) + le32(54) + le32(40) + le32(w as u32)
            + le32(h as u32) + seq![1u8, 0, 24, 0] + le32(0) + le32((row_bytes(w) * h) as u32) + le32(2835) + le32(2835) + le32(
            0,
        ) + le32(0),
        header(w, h).len() == 54,
{
    let data = row_bytes(w) * h;
    six_words((54 + data) as u32, 0, 54, 40, w as u32, h as u32);
    six_words(0, data as u32, 2835, 2835, 0, 0);
    assert(header(w, h) =~= seq![66u8, 77] + le32((54 + data) as u32) + le32(0) + le32(54) + le32(40) + le32(w as u32) + le32(
        h as u32,
    ) + seq![1u8, 0, 24, 0] + le32(0) + le32(data as u32) + le32(2835) + le32(2835) + le32(0) + le32(0));
}

proof fn six_words(a: u32, b: u32, c: u32, d: u32, e: u32, f: u32)
    ensures
        le32s(seq![a, b, c, d, e, f]) == le32(a) + le32(b) + le32(c) + le32(d) + le32(e) + le32(f),
{
    let none = Seq::<u32>::empty();
    assert(seq![a, b, c, d, e, f].drop_last() =~= seq![a, b, c, d, e]);
    assert(seq![a, b, c, d, e].drop_last() =~= seq![a, b, c, d]);
    assert(seq![a, b, c, d].drop_last() =~= seq![a, b, c]);
    assert(seq![a, b, c].drop_last() =~= seq![a, b]);
    assert(seq![a, b].drop_last() =~= seq![a]);
    assert(seq![a].drop_last() =~= none);
    assert(le32s(none) =~= Seq::<u8>::empty());
    assert(le32s(seq![a]) =~= le32(a));
    assert(le32s(seq![a, b]) == le32(a) + le32(b));
    assert(le32s(seq![a, b, c]) == le32(a) + le32(b) + le32(c));
    assert(le32s(seq![a, b, c, d]) == le32(a) + le32(b) + le32(c) + le32(d));
    assert(le32s(seq![a, b, c, d, e]) == le32(a) + le32(b) + le32(c) + le32(d) + le32(e));
}

/// An instance is six indices for each of the faces of its chunk, and a chunk of the next size has
/// twice as many.
pub proof fn an_instance_is_six_a_face(shift: u32)
    requires
        2 <= shift < 6,
    ensures
        per_instance(0) == 0,
        per_instance(2) == 6 * 4,
        per_instance((shift + 1) as u32) == 2 * per_instance(shift),
{
}

/// Chunks are drawn by a chunk pipeline from the arguments that culling filled, and commands by the
/// other; each is indexed where that was asked. Where commands are packed their number is read, and
/// else there are six a section.
pub proof fn drawing_follows_the_options(sections: usize, slot: usize, o: DrawOptions)
    requires
        slot <= usize::MAX - 128,
        sections * 6 <= usize::MAX,
    ensures
        ({
            let d = draw_pass(sections, slot, o);
            &&& d.uniforms_at == slot
            &&& d.chunks <==> o.chunk_shift > 0
            &&& d.pipeline is List <==> !o.indexed && o.chunk_shift == 0
            &&& d.pipeline is Indexed <==> o.indexed && o.chunk_shift == 0
            &&& d.pipeline is ChunkList <==> !o.indexed && o.chunk_shift > 0
            &&& d.pipeline is ChunkIndexed <==> o.indexed && o.chunk_shift > 0
            &&& d.declares_indices <==> d.pipeline is Indexed
            &&& match d.draw {
                Draw::Chunks { indexed, args_at } => o.chunk_shift > 0 && indexed == o.indexed && args_at == slot + 128,
                Draw::Counted { range_at } => o.chunk_shift == 0 && o.compact && range_at == slot + 128,
                Draw::Commands { count } => o.chunk_shift == 0 && !o.compact && count == sections * 6,
            }
        }),
{
}

/// Culling is told by a one what is on and by a zero what is off.
pub proof fn culling_is_told_the_options(r: &Renderer, o: DrawOptions, c: CullParams)
    requires
        is_cull_params(r, o, c),
    ensures
        c.dir_cull == 1 <==> o.dir_cull,
        c.compact == 1 <==> o.compact,
        c.indexed == 1 <==> o.indexed,
        c.dir_cull <= 1 && c.compact <= 1 && c.indexed <= 1,
        c.chunk_shift == o.chunk_shift,
        c.section_count == r.section_count,
        c.chunk_capacity == r.chunk_capacity,
{
}

/// Of a section in view all faces are drawn where directions are not culled, and where they are only
/// those of the directions that may face the camera; of a section out of view none are.
pub proof fn what_is_in_view_is_drawn(m: SectionMesh, v: InView)
    ensures
        v.inside ==> drawn_in(m, v, false) == m.faces(),
        !v.inside ==> drawn_in(m, v, false) == 0 && drawn_in(m, v, true) == 0,
        0 <= drawn_in(m, v, true) <= drawn_in(m, v, false),
        v.inside && (forall|d: int| 0 <= d < 6 ==> #[trigger] v.facing[d]) ==> drawn_in(m, v, true) == m.faces(),
        (forall|d: int| 0 <= d < 6 ==> !(#[trigger] v.facing[d])) ==> drawn_in(m, v, true) == 0,
        v.inside && v.facing[0] && !v.facing[1] && v.facing[2] && !v.facing[3] && v.facing[4] && !v.facing[5] ==> drawn_in(
            m,
            v,
            true,
        ) == m.count[0] + m.count[2] + m.count[4],
{
    assert(v.facing[0] == v.facing[0] && v.facing[1] == v.facing[1] && v.facing[2] == v.facing[2]);
    assert(v.facing[3] == v.facing[3] && v.facing[4] == v.facing[4] && v.facing[5] == v.facing[5]);
}

/// What is drawn of some sections is what is drawn of each.
pub proof fn every_section_is_drawn(meshes: Seq<SectionMesh>, views: Seq<InView>, n: int)
    requires
        0 <= n <= meshes.len(),
        n <= views.len(),
        forall|i: int| 0 <= i < n ==> (#[trigger] views[i]).inside,
    ensures
        drawn_total(meshes, views, false, n) == all_faces(meshes.take(n)),
    decreases n,
{
    if n > 0 {
        every_section_is_drawn(meshes, views, n - 1);
        assert(meshes.take(n).drop_last() =~= meshes.take(n - 1));
        assert(meshes.take(n).last() == meshes[n - 1]);
        what_is_in_view_is_drawn(meshes[n - 1], views[n - 1]);
    }
}

/// The sums over sections are sums: of sections in two parts they are those of the parts.
pub proof fn sums_are_sums(a: Seq<SectionMesh>, b: Seq<SectionMesh>, m: SectionMesh)
    ensures
        all_faces(seq![m]) == m.faces(),
        all_capacity(seq![m]) == m.capacity,
        all_faces(a + b) == all_faces(a) + all_faces(b),
        all_capacity(a + b) == all_capacity(a) + all_capacity(b),
    decreases b.len(),
{
    let none = Seq::<SectionMesh>::empty();
    assert(seq![m].drop_last() =~= none);
    assert(all_faces(none) == 0 && all_capacity(none) == 0);
    if b.len() == 0 {
        assert(a + b =~= a);
    } else {
        sums_are_sums(a, b.drop_last(), m);
        assert((a + b).drop_last() =~= a + b.drop_last());
    }
}

/// The entries of all stacks are those of each.
pub proof fn stacks_are_summed(t: Seq<i32>)
    requires
        t.len() == 10,
    ensures
        tops(t) == t[0] + t[1] + t[2] + t[3] + t[4] + t[5] + t[6] + t[7] + t[8] + t[9],
{
    reveal_with_fuel(tops, 11);
}

/// The faces of a direction come after those of every direction before it.
pub proof fn directions_follow_each_other(m: SectionMesh)
    ensures
        faces_before(m, 0) == 0,
        faces_before(m, 1) == m.count[0],
        faces_before(m, 2) == m.count[0] + m.count[1],
        faces_before(m, 3) == m.count[0] + m.count[1] + m.count[2],
        faces_before(m, 4) == m.count[0] + m.count[1] + m.count[2] + m.count[3],
        faces_before(m, 5) == m.count[0] + m.count[1] + m.count[2] + m.count[3] + m.count[4],
        faces_before(m, 6) == m.faces(),
{
    reveal_with_fuel(faces_before, 8);
}

/// The direction of a packed face is three bits of its first word, from bit 12 on, and the nine
/// highest are not used.
pub proof fn a_face_says_its_direction(words: [u32; 2], d: int)
    ensures
        is_of(words, d) <==> words[0] < 8388608 && (words[0] / 4096) % 8 == d,
{
    let w = words[0];
    assert((w >> 23 == 0 <==> w < 8388608) && ((w >> 12) & 7) == (w / 4096) % 8) by (bit_vector);
}

/// Shaders know the ways to allocate by number: exact 0, classes 1, worst 2. The worst case is six
/// faces for each of 4096 blocks of each section, and else there is room for what was asked.
pub proof fn modes_are_numbered(sections: int, asked: int)
    ensures
        AllocMode::Exact.number() == 0,
        AllocMode::Classes.number() == 1,
        AllocMode::Worst.number() == 2,
        capacity_of(AllocMode::Worst, sections, asked) == sections * (6 * 4096),
        capacity_of(AllocMode::Exact, sections, asked) == asked,
        capacity_of(AllocMode::Classes, sections, asked) == asked,
{
}

/// What the ground is made of, by number: sand 4, grass 3, snow 5, dirt 2 and stone 1.
pub proof fn ground_is_made_of()
    ensures
        block_of_ground(None) == 0,
        block_of_ground(Some(Ground::Stone)) == 1,
        block_of_ground(Some(Ground::Dirt)) == 2,
        block_of_ground(Some(Ground::Grass)) == 3,
        block_of_ground(Some(Ground::Sand)) == 4,
        block_of_ground(Some(Ground::Snow)) == 5,
{
}

/// What is told of a section places its blocks: each is less than sixteen from where the section
/// starts, along every axis, and of the section beside it is told by its number, or that there is
/// none.
pub proof fn a_section_starts_below_its_blocks(sh: Shape, s: int, info: SectionInfo, p: Pos, d: int)
    requires
        sh.wf(),
        sh.sections() <= u32::MAX,
        sh.has(p),
        sh.section_of(p) == s,
        is_info(sh, s, info),
        0 <= d < 6,
    ensures
        0 <= p.x - info.origin[0] < 16,
        0 <= p.y - info.origin[1] < 16,
        0 <= p.z - info.origin[2] < 16,
        info.origin[0] % 16 == 0,
        info.origin[1] % 16 == 0,
        info.origin[2] % 16 == 0,
        ({
            let c = (Pos { x: p.x / 16, y: p.y / 16, z: p.z / 16 }).step(d);
            &&& sh.has_section(c) ==> info.neighbour[d] == sh.section(c)
            &&& !sh.has_section(c) ==> info.neighbour[d] == u32::MAX
        }),
{
    let c = sh.section_pos_of(p);
    sh.section_round_trip(c);
    if sh.has_section(c.step(d)) {
        sh.section_round_trip(c.step(d));
    }
    assert(info.neighbour[d] == beside(sh, c, d));
}

/// A face of a plain mesh covers one block and is of no chosen quad.
pub proof fn plain_faces_are_of_one_block(world: &World, rules: &Rules, s: int, n: int, k: int)
    requires
        0 <= k < plain_faces(world, rules, s, n).len(),
    ensures
        plain_faces(world, rules, s, n)[k].w == 1,
        plain_faces(world, rules, s, n)[k].h == 1,
        plain_faces(world, rules, s, n)[k].quad == 0,
    decreases n,
{
    if k < plain_faces(world, rules, s, n - 1).len() {
        plain_faces_are_of_one_block(world, rules, s, n - 1, k);
    }
}

/// The heights of terrain are listed row by row: where the list holds `height(x, z)` at the `x`th of
/// row `z`, the block at a position is ground by the height of its own column. Outside the world
/// there is air.
pub proof fn heights_are_listed_by_rows(
    sh: Shape,
    height: spec_fn(int, int) -> usize,
    heights: Seq<usize>,
    caves: Seq<bool>,
    p: Pos,
)
    requires
        sh.wf(),
        heights.len() == (sh.nx * 16) * (sh.nz * 16),
        forall|i: int| 0 <= i < heights.len() ==> #[trigger] heights[i] == height(i % (sh.nx * 16), i / (sh.nx * 16)),
    ensures
        sh.has(p) ==> terrain_block(sh, heights, caves, p) == block_of_ground(
            ground_at(sh.ny * 16, height(p.x, p.z) as int, caves[sh.place(p)], p.y),
        ),
        !sh.has(p) ==> terrain_block(sh, heights, caves, p) == 0,
{
    if sh.has(p) {
        let w = sh.nx * 16;
        let i = p.x + w * p.z;
        assert(w * p.z == p.z * w) by (nonlinear_arith);
        vstd::arithmetic::div_mod::lemma_fundamental_div_mod_converse(i, w, p.z, p.x);
        assert(0 <= i < w * (sh.nz * 16)) by (nonlinear_arith)
            requires
                0 <= p.x < w,
                0 <= p.z,
                p.z + 1 <= sh.nz * 16,
                i == p.x + w * p.z,
        ;
        assert(heights[i] == height(i % w, i / w));
    }
}

/// Culling has a thread for every section and fewer than a group too many; it writes chunks exactly
/// where faces are drawn in chunks, and commands and their indices else.
pub proof fn every_section_is_culled(section_count: usize, slot: usize, opts: DrawOptions, pass: CullPass)
    requires
        is_cull_pass(section_count, slot, opts, pass),
    ensures
        pass.threads == 64,
        section_count <= pass.threads * pass.groups < section_count + pass.threads,
        pass.output == CullOutput::Chunks <==> opts.chunk_shift != 0,
        pass.output == CullOutput::Commands <==> opts.chunk_shift == 0,
        pass.indices <==> opts.chunk_shift == 0,
        pass.declares_commands <==> opts.chunk_shift == 0,
        pass.uniforms_at == slot,
        pass.count_at - pass.uniforms_at == 128,
{
}

/// Faces are drawn one by one, or in chunks of 4, 8, 16, 32 or 64 of six vertices each.
pub proof fn chunks_are_of_four_to_sixty_four(opts: DrawOptions)
    ensures
        opts.is_drawable() <==> opts.chunk_shift == 0 || opts.chunk_shift == 2 || opts.chunk_shift == 3 || opts.chunk_shift
            == 4 || opts.chunk_shift == 5 || opts.chunk_shift == 6,
        opts.chunk_shift == 2 ==> per_instance(opts.chunk_shift) == 6 * 4,
        opts.chunk_shift == 3 ==> per_instance(opts.chunk_shift) == 6 * 8,
        opts.chunk_shift == 4 ==> per_instance(opts.chunk_shift) == 6 * 16,
        opts.chunk_shift == 5 ==> per_instance(opts.chunk_shift) == 6 * 32,
        opts.chunk_shift == 6 ==> per_instance(opts.chunk_shift) == 6 * 64,
{
}

/// The first block of a section is at most fifteen below each of its blocks along every axis; a block
/// counted from it and from the start of the world is the same.
pub proof fn sections_start_at_their_first_block(sh: Shape, s: int, p: Pos)
    requires
        sh.wf(),
        sh.has(p),
        sh.section_of(p) == s,
    ensures
        ({
            let o = first_block(sh, s);
            &&& 0 <= p.x - o.x < 16
            &&& 0 <= p.y - o.y < 16
            &&& 0 <= p.z - o.z < 16
            &&& sh.section_of(o) == s
            &&& block_in(sh, s, Pos { x: p.x % 16, y: p.y % 16, z: p.z % 16 }) == p
        }),
{
    let c = sh.section_pos_of(p);
    sh.section_round_trip(c);
    assert(sh.section_pos_of(first_block(sh, s)) == c);
}

/// What is read of a slot is what stands in it, in order: both words of each face from one place.
pub proof fn slots_are_read_in_order(m: SectionMesh, faces: Seq<[u32; 2]>, i: int)
    requires
        m.offset != u32::MAX,
        0 <= i < slot_faces(m, faces).len(),
    ensures
        slot_faces(m, faces).len() == m.faces(),
        slot_faces(m, faces)[i] == Face::unpacked(faces[m.offset + i][0], faces[m.offset + i][1]),
{
}

} // verus!
