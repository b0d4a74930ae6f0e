//! Floats as bits and as text.
use vstd::prelude::*;
use vstd::string::StringExecFns;


verus! {

/// A byte order.
#[derive(Clone, Copy, Debug, PartialEq, Eq, Structural)]
pub enum Endian {
    Big,
    Little,
}

/// Byte `i` of the bits of a single-precision float, the lowest first.
pub open spec fn byte_up(bits: u32, i: int) -> u8 {
    (bits >> ((8 * i) as u32)) as u8
}

/// The bytes of a single-precision float with these bits, in an order.
pub open spec fn float_bytes(bits: u32, endian: Endian) -> Seq<u8> {
    match endian {
        Endian::Big => seq![byte_up(bits, 3), byte_up(bits, 2), byte_up(bits, 1), byte_up(bits, 0)],
        Endian::Little => seq![byte_up(bits, 0), byte_up(bits, 1), byte_up(bits, 2), byte_up(bits, 3)],
    }
}

/// The bits are of a number: not of an infinity, and not of no number at all.
pub open spec fn is_finite(bits: u32) -> bool {
    bits & 0x7F80_0000 != 0x7F80_0000
}

/// The four bytes of a single-precision float with these bits, in an order.
pub fn f32_bytes(bits: u32, endian: Endian) -> (out: [u8; 4])
    ensures
        out@ == float_bytes(bits, endian),
{
    let (b0, b1, b2, b3) = ((bits >> 0u32) as u8, (bits >> 8u32) as u8, (bits >> 16u32) as u8, (bits >> 24u32) as u8);
    let out: [u8; 4] = match endian {
        Endian::Big => [b3, b2, b1, b0],
        Endian::Little => [b0, b1, b2, b3],
    };
    assert(out@ =~= float_bytes(bits, endian));
    out
}

/// Four bytes as the bits of a single-precision float.
proof fn bytes_make_bits(x: u32, b0: u8, b1: u8, b2: u8, b3: u8)
    ensures
        byte_up((b0 as u32) | ((b1 as u32) << 8) | ((b2 as u32) << 16) | ((b3 as u32) << 24), 0) == b0,
        byte_up((b0 as u32) | ((b1 as u32) << 8) | ((b2 as u32) << 16) | ((b3 as u32) << 24), 1) == b1,
        byte_up((b0 as u32) | ((b1 as u32) << 8) | ((b2 as u32) << 16) | ((b3 as u32) << 24), 2) == b2,
        byte_up((b0 as u32) | ((b1 as u32) << 8) | ((b2 as u32) << 16) | ((b3 as u32) << 24), 3) == b3,
        byte_up(x, 0) == b0 && byte_up(x, 1) == b1 && byte_up(x, 2) == b2 && byte_up(x, 3) == b3 ==> x == (b0 as u32) | ((
        b1 as u32) << 8) | ((b2 as u32) << 16) | ((b3 as u32) << 24),
{
    let y: u32 = (b0 as u32) | ((b1 as u32) << 8) | ((b2 as u32) << 16) | ((b3 as u32) << 24);
    assert((y >> 0u32) as u8 == b0 && (y >> 8u32) as u8 == b1 && (y >> 16u32) as u8 == b2 && (y >> 24u32) as u8 == b3 && ((x
        >> 0u32) as u8 == b0 && (x >> 8u32) as u8 == b1 && (x >> 16u32) as u8 == b2 && (x >> 24u32) as u8 == b3 ==> x == y))
        by (bit_vector)
        requires
            y == (b0 as u32) | ((b1 as u32) << 8) | ((b2 as u32) << 16) | ((b3 as u32) << 24),
    ;
}

/// The bits of the single-precision float that four bytes are in an order, or `None` for an
/// infinity or no number at all.
pub fn read_f32(bytes: [u8; 4], endian: Endian) -> (r: Option<u32>)
    ensures
        match r {
            Some(bits) => is_finite(bits) && float_bytes(bits, endian) == bytes@,
            None => exists|bits: u32| !is_finite(bits) && #[trigger] float_bytes(bits, endian) == bytes@,
        },
{
    let (b0, b1, b2, b3) = match endian {
        Endian::Big => (bytes[3], bytes[2], bytes[1], bytes[0]),
        Endian::Little => (bytes[0], bytes[1], bytes[2], bytes[3]),
    };
    let bits = (b0 as u32) | ((b1 as u32) << 8) | ((b2 as u32) << 16) | ((b3 as u32) << 24);
    proof {
        bytes_make_bits(bits, b0, b1, b2, b3);
        assert(float_bytes(bits, endian) =~= bytes@);
    }
    if bits & 0x7F80_0000 != 0x7F80_0000 {
        Some(bits)
    } else {
        None
    }
}

/// The bytes of a float in an order say which it is: what is written is what is read.
pub proof fn bytes_say_which(a: u32, b: u32, endian: Endian)
    requires
        float_bytes(a, endian) == float_bytes(b, endian),
    ensures
        a == b,
{
    let (s, t) = (float_bytes(a, endian), float_bytes(b, endian));
    assert(s[0] == t[0] && s[1] == t[1] && s[2] == t[2] && s[3] == t[3]);
    let (b0, b1, b2, b3) = (byte_up(a, 0), byte_up(a, 1), byte_up(a, 2), byte_up(a, 3));
    bytes_make_bits(a, b0, b1, b2, b3);
    bytes_make_bits(b, b0, b1, b2, b3);
}

/// The text reads as a float and not as an integer: it has a point or an exponent.
pub open spec fn has_point(s: Seq<char>) -> bool {
    exists|i: int| 0 <= i < s.len() && (#[trigger] s[i] == '.' || s[i] == 'e' || s[i] == 'E')
}

/// A float as a program shows it, from the shortest text that reads as it: always with a
/// decimal point, so `1.0` does not read as the integer `1`.
pub fn text(shortest: String) -> (out: String)
    ensures
        out@ == (if has_point(shortest@) {
            shortest@
        } else {
            shortest@ + ".0"@
        }),
{
    let n = shortest.as_str().unicode_len();
    let mut i: usize = 0;
    while i < n
        invariant
            i <= n,
            n == shortest@.len(),
            forall|j: int| 0 <= j < i ==> #[trigger] shortest@[j] != '.' && shortest@[j] != 'e' && shortest@[j] != 'E',
        decreases n - i,
    {
        let c = shortest.as_str().get_char(i);
        if c == '.' || c == 'e' || c == 'E' {
            assert(has_point(shortest@));
            return shortest;
        }
        i += 1;
    }
    let mut out = shortest;
    out.append(".0");
    out
}

} // verus!
