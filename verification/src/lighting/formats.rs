//! How faces, images and updates are written, number by number.
use vstd::prelude::*;

use crate::lighting::cpu_light::occluders;
use crate::lighting::cpu_mesh::{is_face_at, mesh_is_sorted_and_complete, packed_ao, place_block, place_pos, shown_places};
use crate::lighting::face::{word_a, word_b, Face};
use crate::lighting::gpu::library_text;
use crate::lighting::light::{dispatches, Dispatch, Groups, Kernel, Lighting};
use crate::lighting::png::{adler, be32, chunk_bytes, colours, crc_of, image_data, le16, png_of, rows, stored};
use crate::lighting::terrain::{block_of_ground, lit_block, plaza_block};
use crate::lighting::world::{Rules, World};
use crate::voxel::ground::Ground;
use crate::voxel::shape::Pos;

verus! {

/// A packed face as numbers: x, y and z count 1, 16 and 256, the direction 2^12, the width and the
/// height less one 2^15 and 2^19, and the occlusion 2^23; in the second word the block counts 1 and
/// the quad 2^16.
pub proof fn a_packed_face_is_its_parts(f: Face)
    requires
        f.fits(),
    ensures
        f.packed().0 == f.pos[0] + 16 * f.pos[1] + 256 * f.pos[2] + 4096 * f.dir + 32768 * (f.w - 1) + 524288 * (f.h - 1)
            + 8388608 * f.ao,
        f.packed().1 == f.state + 65536 * f.quad,
{
    first_word(f.pos[0], f.pos[1], f.pos[2], f.dir, (f.w - 1) as u8, (f.h - 1) as u8, f.ao);
    second_word(f.state, f.quad);
}

proof fn first_word(x: u8, y: u8, z: u8, dir: u8, w1: u8, h1: u8, ao: u8)
    requires
        x < 16,
        y < 16,
        z < 16,
        dir < 8,
        w1 < 16,
        h1 < 16,
    ensures
        word_a(x, y, z, dir, w1, h1, ao) == x + 16 * y + 256 * z + 4096 * dir + 32768 * w1 + 524288 * h1 + 8388608 * ao,
{
    assert((x as u32) | ((y as u32) << 4) | ((z as u32) << 8) | ((dir as u32) << 12) | ((w1 as u32) << 15) | ((h1 as u32)
        << 19) | ((ao as u32) << 23) == x + 16 * y + 256 * z + 4096 * dir + 32768 * w1 + 524288 * h1 + 8388608 * ao)
        by (bit_vector)
        requires
            x < 16,
            y < 16,
            z < 16,
            dir < 8,
            w1 < 16,
            h1 < 16,
    ;
}

proof fn second_word(state: u16, quad: u16)
    ensures
        word_b(state, quad) == state + 65536 * quad,
{
    assert((state as u32) | ((quad as u32) << 16) == state + 65536 * quad) by (bit_vector);
}

/// Each corner's occluders are two bits of a face's occlusion: the corner at neither axis first,
/// then the one along the first axis, the one along the second, and the one along both.
pub proof fn occlusion_is_two_bits_a_corner(world: &World, rules: &Rules, p: Pos, d: int)
    ensures
        packed_ao(world, rules, p, d) % 4 == occluders(world, rules, p, d, false, false),
        (packed_ao(world, rules, p, d) / 4) % 4 == occluders(world, rules, p, d, true, false),
        (packed_ao(world, rules, p, d) / 16) % 4 == occluders(world, rules, p, d, false, true),
        packed_ao(world, rules, p, d) / 64 == occluders(world, rules, p, d, true, true),
{
}

/// The place of a face in the order of a section's faces.
pub open spec fn place_number(x: int, y: int, z: int, d: int) -> int {
    ((x * 16 + y) * 16 + z) * 6 + d
}

/// Every side of every block of a section that shows is a face of its mesh: at the block's place in
/// the section, in that direction, and of that block.
pub proof fn every_side_that_shows_is_meshed(world: &World, rules: &Rules, s: int, mesh: Seq<Face>, p: Pos, d: int)
    requires
        world.wf(),
        0 <= s < world.shape().sections(),
        mesh.len() == shown_places(world, rules, s, 24576).len(),
        forall|k: int|
            0 <= k < mesh.len() ==> is_face_at(world, rules, s, shown_places(world, rules, s, 24576)[k], #[trigger] mesh[k]),
        world.shape().has(p),
        world.shape().section_of(p) == s,
        0 <= d < 6,
        rules.shows(world.at(p), world.at(p.step(d))),
    ensures
        exists|k: int|
            0 <= k < mesh.len() && {
                let f = #[trigger] mesh[k];
                &&& f.pos[0] == p.x % 16
                &&& f.pos[1] == p.y % 16
                &&& f.pos[2] == p.z % 16
                &&& f.dir == d
                &&& f.state == world.at(p)
            },
{
    let sh = world.shape();
    let places = shown_places(world, rules, s, 24576);
    sh.section_of_block(p);
    let n = place_number(p.x % 16, p.y % 16, p.z % 16, d);
    assert(place_pos(n) == (Pos { x: p.x % 16, y: p.y % 16, z: p.z % 16 }));
    assert(n % 6 == d);
    assert(place_block(sh, s, n) == p);
    mesh_is_sorted_and_complete(world, rules, s, 24576);
    assert(0 <= n < 24576);
    assert(places.contains(n));
    let k = places.index_of(n);
    assert(is_face_at(world, rules, s, places[k], mesh[k]));
}

/// Every face of a mesh is a side of a block of its section that shows.
pub proof fn every_face_is_a_side_that_shows(world: &World, rules: &Rules, s: int, mesh: Seq<Face>, k: int)
    requires
        world.wf(),
        0 <= s < world.shape().sections(),
        mesh.len() == shown_places(world, rules, s, 24576).len(),
        is_face_at(world, rules, s, shown_places(world, rules, s, 24576)[k], mesh[k]),
        0 <= k < mesh.len(),
    ensures
        ({
            let (f, c) = (mesh[k], world.shape().section_pos(s));
            let p = Pos { x: c.x * 16 + f.pos[0], y: c.y * 16 + f.pos[1], z: c.z * 16 + f.pos[2] };
            &&& f.pos[0] < 16 && f.pos[1] < 16 && f.pos[2] < 16
            &&& f.dir < 6
            &&& f.state == world.at(p)
            &&& rules.shows(world.at(p), world.at(p.step(f.dir as int)))
            &&& f.w == 1 && f.h == 1 && f.quad == 0
            &&& f.ao == packed_ao(world, rules, p, f.dir as int)
        }),
{
    let places = shown_places(world, rules, s, 24576);
    mesh_is_sorted_and_complete(world, rules, s, 24576);
    assert(places.contains(places[k]));
}

/// A number's bytes are worth it: the highest first in a PNG, the lowest first in what it stores.
pub proof fn numbers_are_bytes(v: u32, n: int)
    ensures
        be32(v).len() == 4,
        16777216 * be32(v)[0] + 65536 * be32(v)[1] + 256 * be32(v)[2] + be32(v)[3] == v,
        0 <= n < 65536 ==> le16(n).len() == 2 && le16(n)[0] + 256 * le16(n)[1] == n,
{
}

/// A chunk is the number of its bytes, its kind, its bytes, and the checksum of the kind and the
/// bytes, and nothing else.
pub proof fn a_chunk_holds_its_data(kind: Seq<u8>, data: Seq<u8>)
    requires
        kind.len() == 4,
        data.len() <= u32::MAX,
    ensures
        ({
            let c = chunk_bytes(kind, data);
            &&& c.len() == data.len() + 12
            &&& 16777216 * c[0] + 65536 * c[1] + 256 * c[2] + c[3] == data.len()
            &&& c.subrange(4, 8) == kind
            &&& c.subrange(8, 8 + data.len() as int) == data
            &&& c.skip(8 + data.len() as int) == be32(crc_of(kind + data))
        }),
{
    let c = chunk_bytes(kind, data);
    numbers_are_bytes(data.len() as u32, 0);
    numbers_are_bytes(crc_of(kind + data), 0);
    assert(c.subrange(4, 8) =~= kind);
    assert(c.subrange(8, 8 + data.len() as int) =~= data);
    assert(c.skip(8 + data.len() as int) =~= be32(crc_of(kind + data)));
}

/// Of each pixel the red, the green and the blue are kept, in that order.
pub proof fn pixels_keep_their_colours(pixels: Seq<[u8; 4]>, i: int)
    ensures
        colours(pixels).len() == 3 * pixels.len(),
        0 <= i < pixels.len() ==> {
            &&& colours(pixels)[3 * i] == pixels[i][0]
            &&& colours(pixels)[3 * i + 1] == pixels[i][1]
            &&& colours(pixels)[3 * i + 2] == pixels[i][2]
        },
    decreases pixels.len(),
{
    if pixels.len() > 0 {
        pixels_keep_their_colours(pixels.drop_last(), i);
    }
}

/// Each row is a zero and the colours of the pixels of that row, from left to right.
pub proof fn rows_hold_their_pixels(w: int, rgba: Seq<[u8; 4]>, n: int, y: int, x: int)
    requires
        0 <= w,
        0 <= y < n,
        n * w <= rgba.len(),
        0 <= x < w,
    ensures
        rows(w, rgba, n).len() == n * (3 * w + 1),
        0 <= y * (3 * w + 1),
        y * (3 * w + 1) + 3 * x + 3 < n * (3 * w + 1),
        0 <= y * w + x < rgba.len(),
        rows(w, rgba, n)[y * (3 * w + 1)] == 0,
        rows(w, rgba, n)[y * (3 * w + 1) + 3 * x + 1] == rgba[y * w + x][0],
        rows(w, rgba, n)[y * (3 * w + 1) + 3 * x + 2] == rgba[y * w + x][1],
        rows(w, rgba, n)[y * (3 * w + 1) + 3 * x + 3] == rgba[y * w + x][2],
    decreases n,
{
    let t = 3 * w + 1;
    let before = rows(w, rgba, n - 1);
    let row = rgba.subrange((n - 1) * w, n * w);
    assert((n - 1) * w == n * w - w) by (nonlinear_arith);
    assert(0 <= (n - 1) * w) by (nonlinear_arith)
        requires
            0 <= w,
            1 <= n,
    ;
    assert((n - 1) * t == n * t - t) by (nonlinear_arith);
    assert(0 <= y * t && 0 <= y * w) by (nonlinear_arith)
        requires
            0 <= y,
            0 <= w,
            1 <= t,
    ;
    assert(y * t + t <= n * t && y * w + w <= n * w) by (nonlinear_arith)
        requires
            y + 1 <= n,
            0 <= w,
            1 <= t,
    ;
    row_lengths(w, rgba, n - 1);
    pixels_keep_their_colours(row, x);
    assert(row.len() == w);
    if y == n - 1 {
        assert(row[x] == rgba[y * w + x]);
    } else {
        rows_hold_their_pixels(w, rgba, n - 1, y, x);
    }
}

proof fn row_lengths(w: int, rgba: Seq<[u8; 4]>, n: int)
    requires
        0 <= w,
        0 <= n,
        n * w <= rgba.len(),
    ensures
        rows(w, rgba, n).len() == n * (3 * w + 1),
    decreases n,
{
    let t = 3 * w + 1;
    assert(0 * t == 0);
    if n > 0 {
        assert((n - 1) * w == n * w - w) by (nonlinear_arith);
        assert(0 <= (n - 1) * w) by (nonlinear_arith)
            requires
                0 <= w,
                1 <= n,
        ;
        assert((n - 1) * t == n * t - t) by (nonlinear_arith);
        row_lengths(w, rgba, n - 1);
        pixels_keep_their_colours(rgba.subrange((n - 1) * w, n * w), 0);
    }
}

/// The sum of some bytes.
pub open spec fn sum_of(raw: Seq<u8>) -> int
    decreases raw.len(),
{
    if raw.len() == 0 {
        0
    } else {
        sum_of(raw.drop_last()) + raw.last()
    }
}

/// The low half of the checksum of what is stored is one more than the sum of the bytes, modulo
/// 65521.
pub proof fn the_checksum_sums(raw: Seq<u8>)
    ensures
        adler(raw).0 == (1 + sum_of(raw)) % 65521,
        0 <= adler(raw).1 < 65521,
    decreases raw.len(),
{
    if raw.len() > 0 {
        the_checksum_sums(raw.drop_last());
        let (s, x) = (1 + sum_of(raw.drop_last()), raw.last() as int);
        vstd::arithmetic::div_mod::lemma_add_mod_noop(s, x, 65521);
        vstd::arithmetic::div_mod::lemma_add_mod_noop(s % 65521, x, 65521);
        vstd::arithmetic::div_mod::lemma_mod_twice(s, 65521);
    }
}

/// A PNG starts with its signature and a header of thirteen bytes: the width, the height, eight
/// bits a sample, red, green and blue, and no more; its image is stored with a two-byte header in
/// front and the checksum of the rows behind; and it ends with an empty chunk.
pub proof fn a_png_is_laid_out(w: int, h: int, rgba: Seq<[u8; 4]>)
    requires
        0 <= w <= u32::MAX,
        0 <= h <= u32::MAX,
    ensures
        ({
            let p = png_of(w, h, rgba);
            &&& p.take(8) == seq![137u8, 80, 78, 71, 13, 10, 26, 10]
            &&& p.subrange(8, 16) == seq![0u8, 0, 0, 13, 73, 72, 68, 82]
            &&& 16777216 * p[16] + 65536 * p[17] + 256 * p[18] + p[19] == w
            &&& 16777216 * p[20] + 65536 * p[21] + 256 * p[22] + p[23] == h
            &&& p.subrange(24, 29) == seq![8u8, 2, 0, 0, 0]
            &&& p.subrange(37, 41) == seq![73u8, 68, 65, 84]
            &&& p.subrange(41, 41 + image_data(w, h, rgba).len() as int) == image_data(w, h, rgba)
            &&& p.subrange(p.len() - 12, p.len() - 4) == seq![0u8, 0, 0, 0, 73, 69, 78, 68]
        }),
        image_data(w, h, rgba) == seq![120u8, 1] + stored(rows(w, rgba, h)) + be32(
            (adler(rows(w, rgba, h)).1 * 65536 + adler(rows(w, rgba, h)).0) as u32,
        ),
{
    let p = png_of(w, h, rgba);
    numbers_are_bytes(w as u32, 0);
    numbers_are_bytes(h as u32, 0);
    assert(p.take(8) =~= seq![137u8, 80, 78, 71, 13, 10, 26, 10]);
    assert(p.subrange(8, 16) =~= seq![0u8, 0, 0, 13, 73, 72, 68, 82]);
    assert(p.subrange(24, 29) =~= seq![8u8, 2, 0, 0, 0]);
    assert(p.subrange(37, 41) =~= seq![73u8, 68, 65, 84]);
    assert(p.subrange(41, 41 + image_data(w, h, rgba).len() as int) =~= image_data(w, h, rgba));
    assert(p.subrange(p.len() - 12, p.len() - 4) =~= seq![0u8, 0, 0, 0, 73, 69, 78, 68]);
}

/// An update computes the columns before it resets the sections, and resets these before it
/// relaxes them; each is told how many of them there are, and the world and the number of the
/// update. Where there is nothing to do nothing is done.
pub proof fn an_update_goes_in_order(l: Lighting, columns: usize, sections: usize)
    requires
        columns <= u32::MAX,
        sections <= u32::MAX,
        l.section_count <= u32::MAX,
    ensures
        ({
            let all = dispatches(l, columns, sections);
            let first: int = if columns > 0 {
                1
            } else {
                0
            };
            &&& columns == 0 && sections == 0 ==> all.len() == 0
            &&& columns > 0 ==> {
                &&& all[0].kernel == Kernel::Columns
                &&& all[0].groups == Groups::Count(columns)
                &&& all[0].params.job_count == columns
                &&& all[0].params.pass == 0
            }
            &&& sections == 0 ==> all.len() == first
            &&& sections > 0 ==> {
                &&& all.len() == first + 13
                &&& all[first].kernel == Kernel::Reset
                &&& all[first].groups == Groups::Count(sections)
                &&& all[first].params.job_count == sections
                &&& all[first].params.pass == 0
            }
            &&& forall|k: int|
                0 <= k < all.len() ==> {
                    let d: Dispatch = #[trigger] all[k];
                    d.params.epoch == l.epoch && d.params.list_cap == l.section_count && d.params.world == l.world
                }
        }),
{
}

/// What the ground is made of, by number: sand 4, grass 3, snow 5, dirt 2 and stone 1.
pub proof fn ground_is_made_of()
    ensures
        block_of_ground(None) == 0,
        block_of_ground(Some(Ground::Stone)) == 1,
        block_of_ground(Some(Ground::Dirt)) == 2,
        block_of_ground(Some(Ground::Grass)) == 3,
        block_of_ground(Some(Ground::Sand)) == 4,
        block_of_ground(Some(Ground::Snow)) == 5,
{
}

/// The plaza is one layer of grass on three of dirt on stone, with air above.
pub proof fn the_plaza_is_grass_on_dirt_on_stone(h: int, y: int)
    ensures
        plaza_block(h, y) == 3 <==> y == h,
        plaza_block(h, y) == 2 <==> h - 3 <= y < h,
        plaza_block(h, y) == 1 <==> y < h - 3,
        plaza_block(h, y) == 0 <==> y > h,
{
}

/// What stands where on the plaza, counted from its centre and its height: one glowstone, one sea
/// lantern, six torches, a pool of water and one of lava, a pane of glass, and a room of stone with
/// a door and a hole in its roof; what is further off than 20 stays.
pub proof fn each_light_stands_in_its_place(x: int, y: int, z: int, h: int, old: u16)
    ensures
        !(-20 <= x < 20 && -20 <= z < 20) ==> lit_block(x, y, z, h, old) == old,
        -20 <= x < 20 && -20 <= z < 20 ==> {
            let b = lit_block(x, y, z, h, old);
            &&& b == 10 <==> x == 0 && y == 3 && z == 15
            &&& b == 12 <==> x == 11 && y == -4 && z == 0
            &&& b == 9 <==> y == 1 && ((x == 5 || x == -5) && (z == 5 || z == -5) || x == 0 && (z == 9 || z == -9))
            &&& b == 11 <==> -14 <= x <= -9 && -3 <= z <= 2 && -1 <= y <= 0
            &&& b == 8 <==> 6 <= x <= 15 && -5 <= z <= 4 && -3 <= y <= 0
            &&& b == 6 <==> -4 <= x <= 3 && z == -14 && 1 <= y <= 3
            &&& b == 4 <==> 6 <= x <= 15 && -5 <= z <= 4 && y == -4 && !(x == 11 && z == 0)
            &&& y > 0 ==> (b == 1 <==> -3 <= x <= 3 && 12 <= z <= 18 && y <= 4 && (x == -3 || x == 3 || z == 12 || z == 18 || y
                == 4) && !(x == 0 && z == 12 && y <= 2) && !(x == 0 && z == 15 && y == 4))
            &&& b != 5 && b != 7
        },
{
}

/// The text that kernels are compiled from starts with what all have in common, and each source is
/// whole in it behind a line end, after all before it and with none left out.
pub proof fn each_source_is_on_its_line(common: Seq<char>, sources: Seq<&str>, k: int)
    requires
        0 <= k < sources.len(),
    ensures
        ({
            let text = library_text(common, sources);
            let at = library_text(common, sources.take(k)).len() as int;
            &&& library_text(common, Seq::empty()) == common
            &&& text.take(common.len() as int) == common
            &&& common.len() <= at
            &&& text[at] == '\n'
            &&& at + 1 + sources[k]@.len() <= text.len()
            &&& text.subrange(at + 1, at + 1 + sources[k]@.len()) == sources[k]@
            &&& k == sources.len() - 1 ==> text.len() == at + 1 + sources[k]@.len()
        }),
    decreases sources.len(),
{
    reveal_strlit("\n");
    let text = library_text(common, sources);
    let front = library_text(common, sources.drop_last());
    if k == sources.len() - 1 {
        assert(sources.take(k) =~= sources.drop_last());
        assert(text.subrange(front.len() as int + 1, text.len() as int) =~= sources[k]@);
        if k > 0 {
            each_source_is_on_its_line(common, sources.drop_last(), k - 1);
            assert(front.take(common.len() as int) =~= text.take(common.len() as int));
        } else {
            assert(front == common);
            assert(text.take(common.len() as int) =~= common);
        }
    } else {
        each_source_is_on_its_line(common, sources.drop_last(), k);
        assert(sources.drop_last().take(k) =~= sources.take(k));
        let at = library_text(common, sources.take(k)).len() as int;
        assert(front.take(common.len() as int) =~= text.take(common.len() as int));
        assert(text.subrange(at + 1, at + 1 + sources[k]@.len()) =~= front.subrange(at + 1, at + 1 + sources[k]@.len()));
    }
}

} // verus!
