//! Where things are, number by number: cells in a world, halves in a byte, slots in a stack, layers
//! in the ground, and times among some bytes.
use vstd::prelude::*;

use crate::voxel::frames::{chunks_of, le64, quad_corner, room_for_chunks, ticks, timestamp, was_taken};
use crate::voxel::ground::{ground_at, ground_height, ground_layer, noise, wrapped_product};
use crate::voxel::nibble::{high, joined, low};
use crate::voxel::shape::{Pos, Shape};
use crate::voxel::slots::{class_faces, stack_entries};

verus! {

/// Within a section one step along x is the next cell, one along z is 16 cells on, and one upwards
/// is 256 cells on.
pub proof fn cells_follow_x_then_z_then_y(sh: Shape, p: Pos)
    ensures
        p.x % 16 < 15 ==> sh.place(Pos { x: p.x + 1, y: p.y, z: p.z }) == sh.place(p) + 1,
        p.z % 16 < 15 ==> sh.place(Pos { x: p.x, y: p.y, z: p.z + 1 }) == sh.place(p) + 16,
        p.y % 16 < 15 ==> sh.place(Pos { x: p.x, y: p.y + 1, z: p.z }) == sh.place(p) + 256,
        p.x % 16 == 0 && p.y % 16 == 0 && p.z % 16 == 0 ==> sh.place(p) == 4096 * sh.section_of(p),
{
    reveal(Shape::place);
    let (x, y, z) = (p.x, p.y, p.z);
    if x % 16 < 15 {
        assert((x + 1) / 16 == x / 16 && (x + 1) % 16 == x % 16 + 1);
    }
    if y % 16 < 15 {
        assert((y + 1) / 16 == y / 16 && (y + 1) % 16 == y % 16 + 1);
    }
    if z % 16 < 15 {
        assert((z + 1) / 16 == z / 16 && (z + 1) % 16 == z % 16 + 1);
    }
}

/// Sections follow each other in the same order: the next one along x, then a row along z, then a
/// layer upwards. The first is number 0.
pub proof fn sections_follow_x_then_z_then_y(sh: Shape, c: Pos)
    ensures
        sh.section(Pos { x: 0, y: 0, z: 0 }) == 0,
        sh.section(Pos { x: c.x + 1, y: c.y, z: c.z }) == sh.section(c) + 1,
        sh.section(Pos { x: c.x, y: c.y, z: c.z + 1 }) == sh.section(c) + sh.nx,
        sh.section(Pos { x: c.x, y: c.y + 1, z: c.z }) == sh.section(c) + sh.nx * sh.nz,
        sh.sections() == sh.nx * sh.ny * sh.nz,
        sh.count() == 4096 * sh.sections(),
{
    reveal(Shape::section);
    let (n, m) = (sh.nx, sh.nz);
    assert(n * (0 + m * 0) == 0) by (nonlinear_arith);
    assert(n * (c.z + 1 + m * c.y) == n * (c.z + m * c.y) + n) by (nonlinear_arith);
    assert(n * (c.z + m * (c.y + 1)) == n * (c.z + m * c.y) + n * m) by (nonlinear_arith);
}

/// A byte is sixteen times its high half and its low half, and each half is below 16.
pub proof fn a_byte_is_two_halves(b: u8, hi: int, lo: int)
    ensures
        b == 16 * high(b) + low(b),
        0 <= high(b) < 16,
        0 <= low(b) < 16,
        joined(hi, lo) == 16 * hi + lo,
{
}

/// A slot of each class has twice the faces of the class before, from 64 on, and the stack of each
/// class has room for as many slots as the faces can make.
pub proof fn slots_double(capacity: int, c: int)
    requires
        0 <= c,
    ensures
        class_faces(0) == 64,
        class_faces(c + 1) == 2 * class_faces(c),
        class_faces(9) == 32768,
        stack_entries(capacity, 0) == 0,
        stack_entries(capacity, c + 1) == stack_entries(capacity, c) + capacity / class_faces(c),
        stack_entries(capacity, 2) == capacity / 64 + capacity / 128,
{
    reveal_with_fuel(class_faces, 11);
    reveal_with_fuel(stack_entries, 3);
}

/// A column is as high as was asked, but at least 1 and below the top.
pub proof fn columns_stay_in_the_world(sy: int, raw: int)
    requires
        sy >= 2,
    ensures
        1 <= ground_height(sy, raw) <= sy - 1,
        1 <= raw <= sy - 1 ==> ground_height(sy, raw) == raw,
        raw < 1 ==> ground_height(sy, raw) == 1,
        raw >= sy ==> ground_height(sy, raw) == sy - 1,
{
}

/// The top of a column is sand in the lowest 30 per cent of the world, snow above 62 per cent, and
/// grass between; the three layers below it are dirt, and the rest is stone.
pub proof fn ground_is_layered(sy: int, h: int, y: int)
    requires
        0 <= sy,
        y <= h,
    ensures
        ground_layer(sy, h, y) is Sand <==> y == h && 100 * (h + 1) <= 30 * sy,
        ground_layer(sy, h, y) is Snow <==> y == h && 100 * h > 62 * sy,
        ground_layer(sy, h, y) is Grass <==> y == h && 30 * sy < 100 * (h + 1) && 100 * h <= 62 * sy,
        ground_layer(sy, h, y) is Dirt <==> h - 3 <= y < h,
        ground_layer(sy, h, y) is Stone <==> y < h - 3,
{
}

/// Above a column there is nothing, nor in a cave above the bottom three layers; everywhere else
/// there is ground.
pub proof fn caves_leave_a_floor(sy: int, raw: int, cave: bool, y: int)
    ensures
        ground_at(sy, raw, cave, y) is None <==> y > ground_height(sy, raw) || (cave && y >= 3),
        ground_at(sy, raw, cave, y) is Some ==> ground_at(sy, raw, cave, y)->0 == ground_layer(sy, ground_height(sy, raw), y),
{
}

/// Noise depends on a point through three products alone, each modulo 2^32, that go into the seed:
/// a point moved to the origin with its seed changed so has the same noise, of 16 bits.
pub proof fn noise_is_of_the_seed_and_three_products(seed: u32, x: u32, y: u32, z: u32)
    ensures
        noise(seed, x, y, z) == noise(
            seed ^ wrapped_product(x, 2376512323) ^ wrapped_product(y, 3625334849) ^ wrapped_product(z, 3407524639),
            0,
            0,
            0,
        ),
        noise(seed, x, y, z) <= 65535,
        wrapped_product(x, y) == (x * y) % 0x1_0000_0000,
{
    let s = seed ^ wrapped_product(x, 2376512323) ^ wrapped_product(y, 3625334849) ^ wrapped_product(z, 3407524639);
    assert(wrapped_product(0, 2376512323) == 0 && wrapped_product(0, 3625334849) == 0 && wrapped_product(0, 3407524639) == 0);
    assert(s ^ 0u32 ^ 0u32 ^ 0u32 == s) by (bit_vector);
    let b = s ^ (s >> 13u32);
    let c = wrapped_product(b, 0x5bd1_e995);
    assert((c ^ (c >> 15u32)) & 0xFFFF <= 65535) by (bit_vector);
    let p = x * y;
    assert(0 <= p) by (nonlinear_arith)
        requires
            p == x * y,
            0 <= x,
            0 <= y,
    ;
}

/// The six indices of a quad make two triangles that share the corners 1 and 2: each corner is
/// used, and the two triangles go round the same way.
pub proof fn a_quad_is_two_triangles()
    ensures
        quad_corner(0) == 0 && quad_corner(1) == 1 && quad_corner(2) == 2,
        quad_corner(3) == 2 && quad_corner(4) == 1 && quad_corner(5) == 3,
{
}

/// A run takes as few chunks as hold it.
pub proof fn chunks_just_hold_a_run(n: int, size: int)
    requires
        0 <= n,
        0 < size,
    ensures
        n <= size * chunks_of(n, size) < n + size,
        room_for_chunks(n, 0, 4) == n / 4,
{
    let q = chunks_of(n, size);
    vstd::arithmetic::div_mod::lemma_fundamental_div_mod(n + size - 1, size);
}

/// A time is eight bytes, the lowest first: each byte counts 256 times the one before.
pub proof fn times_are_lowest_first(bytes: Seq<u8>, b: u8)
    ensures
        le64(Seq::<u8>::empty()) == 0,
        le64(seq![b] + bytes) == b + 256 * le64(bytes),
{
    let s = seq![b] + bytes;
    assert(s.drop_first() =~= bytes);
}

/// A time that was not taken is all zeros or all ones, and time does not run backwards.
pub proof fn time_does_not_run_backwards(bytes: Seq<u8>, a: int, b: int, t: int)
    ensures
        was_taken(t) <==> t != 0 && t != 18446744073709551615,
        ticks(bytes, a, b) >= 0,
        timestamp(bytes, a) <= timestamp(bytes, b) ==> timestamp(bytes, a) + ticks(bytes, a, b) == timestamp(bytes, b),
        timestamp(bytes, a) >= timestamp(bytes, b) ==> ticks(bytes, a, b) == 0,
{
}

/// The times among some bytes follow each other, eight bytes each.
pub proof fn times_follow_each_other(front: Seq<u8>, bytes: Seq<u8>, back: Seq<u8>, k: int)
    requires
        0 <= k,
        front.len() == 8 * k,
        bytes.len() == 8,
    ensures
        timestamp(front + bytes + back, k) == le64(bytes),
{
    let all = front + bytes + back;
    assert(all.subrange(8 * k, 8 * k + 8) =~= bytes);
}

} // verus!
