//! Two values from 0 to 15 in one byte.
use vstd::prelude::*;

verus! {

/// The low half of a byte.
pub open spec fn low(b: u8) -> int {
    b as int % 16
}

/// The high half of a byte.
pub open spec fn high(b: u8) -> int {
    b as int / 16
}

/// The byte with these halves.
pub open spec fn joined(hi: int, lo: int) -> int {
    16 * hi + lo
}

/// The low half of a byte.
pub fn low_of(b: u8) -> (v: u8)
    ensures
        v == low(b),
        v <= 15,
{
    assert(b & 15 == b % 16) by (bit_vector);
    b & 15
}

/// The high half of a byte.
pub fn high_of(b: u8) -> (v: u8)
    ensures
        v == high(b),
        v <= 15,
{
    assert(b >> 4 == b / 16) by (bit_vector);
    b >> 4
}

/// The byte with these halves.
pub fn join(hi: u8, lo: u8) -> (b: u8)
    requires
        hi <= 15,
        lo <= 15,
    ensures
        b == joined(hi as int, lo as int),
        high(b) == hi,
        low(b) == lo,
{
    assert((hi << 4) | lo == 16 * hi + lo) by (bit_vector)
        requires
            hi <= 15,
            lo <= 15,
    ;
    (hi << 4) | lo
}

/// A byte is its two halves.
pub proof fn halves(b: u8)
    ensures
        0 <= low(b) <= 15,
        0 <= high(b) <= 15,
        b == joined(high(b), low(b)),
{
}

} // verus!
