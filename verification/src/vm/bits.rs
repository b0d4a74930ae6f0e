//! Bits and bytes. The bits of a byte are counted from the most significant, and the
//! bytes of a word from the lowest.
use vstd::prelude::*;

verus! {

/// Bit `j` of a byte, counted from the most significant.
pub open spec fn bit_of(b: u8, j: u8) -> bool {
    b & (0x80u8 >> j) != 0
}

/// The byte of a word that is `s` bits up.
pub open spec fn byte_of(w: u64, s: u64) -> u8 {
    (w >> s) as u8
}

/// The word with another byte `s` bits up.
pub open spec fn with_byte(w: u64, s: u64, b: u8) -> u64 {
    w & !(0xFFu64 << s) | ((b as u64) << s)
}

/// How far up byte `i` is in its word.
pub open spec fn shift_of(i: int) -> u64 {
    ((i % 8) * 8) as u64
}

/// Putting a byte in a word changes that byte and no other.
pub proof fn put_byte(w: u64, s: u64, b: u8, t: u64)
    requires
        s < 64,
        s % 8 == 0,
        t < 64,
        t % 8 == 0,
    ensures
        byte_of(with_byte(w, s, b), t) == (if s == t {
            b
        } else {
            byte_of(w, t)
        }),
{
    assert(((w & !(0xFFu64 << s) | ((b as u64) << s)) >> t) as u8 == (if s == t {
        b
    } else {
        (w >> t) as u8
    })) by (bit_vector)
        requires
            s < 64,
            s % 8 == 0,
            t < 64,
            t % 8 == 0,
    ;
}

/// The bytes of a zero word are zero.
pub proof fn zero_bytes(s: u64)
    requires
        s < 64,
    ensures
        byte_of(0, s) == 0,
{
    assert((0u64 >> s) as u8 == 0) by (bit_vector)
        requires
            s < 64,
    ;
}

/// The bits of a zero byte are clear.
pub proof fn zero_bits(j: u8)
    requires
        j < 8,
    ensures
        !bit_of(0, j),
{
    assert(0u8 & (0x80u8 >> j) == 0) by (bit_vector);
}

/// What a bit is worth.
pub open spec fn worth(b: bool, w: int) -> int {
    if b {
        w
    } else {
        0
    }
}

/// Bit `i` of some bits, clear past their end.
pub open spec fn bit_or_clear(bits: Seq<bool>, i: int) -> bool {
    0 <= i < bits.len() && bits[i]
}

/// The eight bits from `i` on as a byte, those past the end clear.
#[verifier::opaque]
pub open spec fn byte_from(bits: Seq<bool>, i: int) -> u8 {
    (worth(bit_or_clear(bits, i), 128) + worth(bit_or_clear(bits, i + 1), 64) + worth(bit_or_clear(bits, i + 2), 32) + worth(
        bit_or_clear(bits, i + 3),
        16,
    ) + worth(bit_or_clear(bits, i + 4), 8) + worth(bit_or_clear(bits, i + 5), 4) + worth(bit_or_clear(bits, i + 6), 2)
        + worth(bit_or_clear(bits, i + 7), 1)) as u8
}

/// A byte is what its bits are worth.
pub proof fn byte_is_worth(v: u8)
    ensures
        v == worth(bit_of(v, 0), 128) + worth(bit_of(v, 1), 64) + worth(bit_of(v, 2), 32) + worth(bit_of(v, 3), 16) + worth(
            bit_of(v, 4),
            8,
        ) + worth(bit_of(v, 5), 4) + worth(bit_of(v, 6), 2) + worth(bit_of(v, 7), 1),
{
    let b0 = v & (0x80u8 >> 0u8) != 0;
    let b1 = v & (0x80u8 >> 1u8) != 0;
    let b2 = v & (0x80u8 >> 2u8) != 0;
    let b3 = v & (0x80u8 >> 3u8) != 0;
    let b4 = v & (0x80u8 >> 4u8) != 0;
    let b5 = v & (0x80u8 >> 5u8) != 0;
    let b6 = v & (0x80u8 >> 6u8) != 0;
    let b7 = v & (0x80u8 >> 7u8) != 0;
    assert(v == (if b0 {
        128u8
    } else {
        0
    }) + (if b1 {
        64u8
    } else {
        0
    }) + (if b2 {
        32u8
    } else {
        0
    }) + (if b3 {
        16u8
    } else {
        0
    }) + (if b4 {
        8u8
    } else {
        0
    }) + (if b5 {
        4u8
    } else {
        0
    }) + (if b6 {
        2u8
    } else {
        0
    }) + (if b7 {
        1u8
    } else {
        0
    })) by (bit_vector)
        requires
            b0 == (v & (0x80u8 >> 0u8) != 0),
            b1 == (v & (0x80u8 >> 1u8) != 0),
            b2 == (v & (0x80u8 >> 2u8) != 0),
            b3 == (v & (0x80u8 >> 3u8) != 0),
            b4 == (v & (0x80u8 >> 4u8) != 0),
            b5 == (v & (0x80u8 >> 5u8) != 0),
            b6 == (v & (0x80u8 >> 6u8) != 0),
            b7 == (v & (0x80u8 >> 7u8) != 0),
    ;
}

/// A byte with the bits from `i` on is the byte from `i`.
pub proof fn byte_is(v: u8, bits: Seq<bool>, i: int)
    requires
        forall|j: u8| j < 8 ==> #[trigger] bit_of(v, j) == bit_or_clear(bits, i + j),
    ensures
        v == byte_from(bits, i),
{
    reveal(byte_from);
    byte_is_worth(v);
    assert(bit_of(v, 0) == bit_or_clear(bits, i));
    assert(bit_of(v, 1) == bit_or_clear(bits, i + 1));
    assert(bit_of(v, 2) == bit_or_clear(bits, i + 2));
    assert(bit_of(v, 3) == bit_or_clear(bits, i + 3));
    assert(bit_of(v, 4) == bit_or_clear(bits, i + 4));
    assert(bit_of(v, 5) == bit_or_clear(bits, i + 5));
    assert(bit_of(v, 6) == bit_or_clear(bits, i + 6));
    assert(bit_of(v, 7) == bit_or_clear(bits, i + 7));
}

/// A byte that has given bits.
proof fn byte_with(b0: bool, b1: bool, b2: bool, b3: bool, b4: bool, b5: bool, b6: bool, b7: bool) -> (v: u8)
    ensures
        bit_of(v, 0) == b0,
        bit_of(v, 1) == b1,
        bit_of(v, 2) == b2,
        bit_of(v, 3) == b3,
        bit_of(v, 4) == b4,
        bit_of(v, 5) == b5,
        bit_of(v, 6) == b6,
        bit_of(v, 7) == b7,
{
    let v: u8 = (if b0 {
        0x80u8
    } else {
        0
    }) | (if b1 {
        0x40u8
    } else {
        0
    }) | (if b2 {
        0x20u8
    } else {
        0
    }) | (if b3 {
        0x10u8
    } else {
        0
    }) | (if b4 {
        8u8
    } else {
        0
    }) | (if b5 {
        4u8
    } else {
        0
    }) | (if b6 {
        2u8
    } else {
        0
    }) | (if b7 {
        1u8
    } else {
        0
    });
    assert((v & (0x80u8 >> 0u8) != 0) == b0 && (v & (0x80u8 >> 1u8) != 0) == b1 && (v & (0x80u8 >> 2u8) != 0) == b2 && (v & (
    0x80u8 >> 3u8) != 0) == b3 && (v & (0x80u8 >> 4u8) != 0) == b4 && (v & (0x80u8 >> 5u8) != 0) == b5 && (v & (0x80u8 >> 6u8)
        != 0) == b6 && (v & (0x80u8 >> 7u8) != 0) == b7) by (bit_vector)
        requires
            v == (if b0 {
                0x80u8
            } else {
                0
            }) | (if b1 {
                0x40u8
            } else {
                0
            }) | (if b2 {
                0x20u8
            } else {
                0
            }) | (if b3 {
                0x10u8
            } else {
                0
            }) | (if b4 {
                8u8
            } else {
                0
            }) | (if b5 {
                4u8
            } else {
                0
            }) | (if b6 {
                2u8
            } else {
                0
            }) | (if b7 {
                1u8
            } else {
                0
            }),
    ;
    v
}

/// The byte from `i` has the bits from `i` on.
pub proof fn byte_from_has(bits: Seq<bool>, i: int)
    ensures
        forall|j: u8| j < 8 ==> #[trigger] bit_of(byte_from(bits, i), j) == bit_or_clear(bits, i + j),
{
    let v = byte_with(
        bit_or_clear(bits, i),
        bit_or_clear(bits, i + 1),
        bit_or_clear(bits, i + 2),
        bit_or_clear(bits, i + 3),
        bit_or_clear(bits, i + 4),
        bit_or_clear(bits, i + 5),
        bit_or_clear(bits, i + 6),
        bit_or_clear(bits, i + 7),
    );
    assert forall|j: u8| j < 8 implies #[trigger] bit_of(v, j) == bit_or_clear(bits, i + j) by {
        if j == 0 {
        } else if j == 1 {
        } else if j == 2 {
        } else if j == 3 {
        } else if j == 4 {
        } else if j == 5 {
        } else if j == 6 {
        } else {
            assert(j == 7);
        }
    }
    byte_is(v, bits, i);
}

/// Bits as bytes, the last filled up with clear bits.
pub open spec fn to_bytes(bits: Seq<bool>) -> Seq<u8> {
    Seq::new(((bits.len() + 7) / 8) as nat, |k: int| byte_from(bits, 8 * k))
}

/// Byte `k` of some bits.
pub proof fn byte_at(bits: Seq<bool>, k: int)
    requires
        0 <= k,
        8 * k < bits.len(),
    ensures
        k < to_bytes(bits).len(),
        to_bytes(bits)[k] == byte_from(bits, 8 * k),
{
}

/// The first `n` bits of some bytes, those past their end clear.
pub open spec fn bits_in(bytes: Seq<u8>, n: int) -> Seq<bool> {
    Seq::new(n as nat, |i: int| i / 8 < bytes.len() && bit_of(bytes[i / 8], (i % 8) as u8))
}

/// Bytes made of bits hold those bits, and nothing but clear bits after them.
pub proof fn bytes_hold_bits(bits: Seq<bool>, n: int)
    requires
        bits.len() <= n,
    ensures
        bits_in(to_bytes(bits), n) == bits + Seq::new((n - bits.len()) as nat, |i: int| false),
{
    let bytes = to_bytes(bits);
    let want = bits + Seq::new((n - bits.len()) as nat, |i: int| false);
    assert forall|i: int| 0 <= i < n implies bits_in(bytes, n)[i] == want[i] by {
        let k = i / 8;
        if k < bytes.len() {
            byte_from_has(bits, 8 * k);
            let j = (i % 8) as u8;
            assert(bit_of(byte_from(bits, 8 * k), j) == bit_or_clear(bits, 8 * k + j));
            assert(8 * k + j == i);
        }
    }
    assert(bits_in(bytes, n) =~= want);
}

/// Bits that come from whole bytes make those bytes again.
pub proof fn bits_make_bytes(bytes: Seq<u8>)
    ensures
        to_bytes(bits_in(bytes, 8 * bytes.len() as int)) == bytes,
{
    let bits = bits_in(bytes, 8 * bytes.len() as int);
    assert forall|k: int| 0 <= k < bytes.len() implies to_bytes(bits)[k] == bytes[k] by {
        assert forall|j: u8| j < 8 implies #[trigger] bit_of(bytes[k], j) == bit_or_clear(bits, 8 * k + j) by {
            let i = 8 * k + j;
            assert(i / 8 == k && i % 8 == j);
            assert(bits[i] == bit_of(bytes[k], j));
        }
        byte_is(bytes[k], bits, 8 * k);
    }
    assert(to_bytes(bits) =~= bytes);
}

} // verus!
