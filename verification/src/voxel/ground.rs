//! What the ground of a test world is made of, and the numbers its noise is made of.
use vstd::prelude::*;

verus! {

/// The layers of ground, from the top.
#[derive(Clone, Copy, Debug, PartialEq, Eq, Structural)]
pub enum Ground {
    Sand,
    Grass,
    Snow,
    Dirt,
    Stone,
}

/// The height of a column of ground in a world `sy` blocks high: at least 1, and
/// below the top.
pub open spec fn ground_height(sy: int, raw: int) -> int {
    if raw < 1 {
        1
    } else if raw > sy - 1 {
        sy - 1
    } else {
        raw
    }
}

/// What the ground is at height `y` of a column of height `h`, in a world `sy` high.
pub open spec fn ground_layer(sy: int, h: int, y: int) -> Ground {
    if y == h {
        if h < sy * 30 / 100 {
            Ground::Sand
        } else if h > sy * 62 / 100 {
            Ground::Snow
        } else {
            Ground::Grass
        }
    } else if h - y < 4 {
        Ground::Dirt
    } else {
        Ground::Stone
    }
}

/// The ground at height `y` of a column: none above its height, and none in a cave
/// above the bottom three layers.
pub open spec fn ground_at(sy: int, raw: int, cave: bool, y: int) -> Option<Ground> {
    let h = ground_height(sy, raw);
    if y <= h && !(y > 2 && cave) {
        Some(ground_layer(sy, h, y))
    } else {
        None
    }
}

/// The height of a column of ground.
pub fn column_height(sy: usize, raw: usize) -> (h: usize)
    requires
        sy >= 2,
    ensures
        h == ground_height(sy as int, raw as int),
        1 <= h < sy,
{
    if raw < 1 {
        1
    } else if raw > sy - 1 {
        sy - 1
    } else {
        raw
    }
}

/// What the ground is at height `y` of a column of height `h`.
pub fn layer_at(sy: usize, h: usize, y: usize) -> (g: Ground)
    requires
        y <= h < sy,
        sy <= i32::MAX,
    ensures
        g == ground_layer(sy as int, h as int, y as int),
{
    let high = sy as u64;
    if y == h {
        if (h as u64) < high * 30 / 100 {
            Ground::Sand
        } else if (h as u64) > high * 62 / 100 {
            Ground::Snow
        } else {
            Ground::Grass
        }
    } else if h - y < 4 {
        Ground::Dirt
    } else {
        Ground::Stone
    }
}

/// The product of two numbers, modulo 2^32.
pub open spec fn wrapped_product(a: u32, b: u32) -> u32 {
    ((a * b) % 0x1_0000_0000) as u32
}

/// The 16 bits of noise at a lattice point.
pub open spec fn noise(seed: u32, x: u32, y: u32, z: u32) -> u32 {
    let a = seed ^ wrapped_product(x, 0x8DA6_B343) ^ wrapped_product(y, 0xD816_3841) ^ wrapped_product(z, 0xCB1A_B31F);
    let b = a ^ (a >> 13u32);
    let c = wrapped_product(b, 0x5bd1_e995);
    (c ^ (c >> 15u32)) & 0xFFFF
}

fn product(a: u32, b: u32) -> (c: u32)
    ensures
        c == wrapped_product(a, b),
{
    assert(a * b <= 0xFFFF_FFFF * 0xFFFF_FFFF) by (nonlinear_arith)
        requires
            0 <= a <= 0xFFFF_FFFF,
            0 <= b <= 0xFFFF_FFFF,
    ;
    ((a as u64 * b as u64) % 0x1_0000_0000) as u32
}

/// The 16 bits of noise at a lattice point, given its coordinates as unsigned words.
pub fn noise_bits(seed: u32, x: u32, y: u32, z: u32) -> (n: u32)
    ensures
        n == noise(seed, x, y, z),
        n <= 0xFFFF,
{
    let a = seed ^ product(x, 0x8DA6_B343) ^ product(y, 0xD816_3841) ^ product(z, 0xCB1A_B31F);
    let b = a ^ (a >> 13u32);
    let c = product(b, 0x5bd1_e995);
    let d = c ^ (c >> 15u32);
    assert(d & 0xFFFF <= 0xFFFF) by (bit_vector);
    d & 0xFFFF
}

} // verus!
