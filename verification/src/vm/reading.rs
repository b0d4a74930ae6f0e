//! Reading binaries: in place where that can be done, and as UTF-8.
use vstd::prelude::*;
use vstd::utf8::{
    decode_first_codepoint, decode_first_scalar, length_of_first_scalar, valid_first_scalar,
};

use crate::vm::binary::{byte, bytes, Bits};
use crate::vm::bits::{bit_of, bit_or_clear, byte_at, byte_from, byte_is, byte_of, shift_of, to_bytes};
use crate::vm::heap::{owner_bit, owner_byte_at, Heap};

verus! {

/// Bytes that are some words, the bytes of each lowest first, or highest first.
pub open spec fn are_words(words: Seq<u64>, bytes: Seq<u8>, lowest_first: bool) -> bool {
    &&& bytes.len() == 8 * words.len()
    &&& forall|k: int|
        0 <= k < bytes.len() ==> #[trigger] bytes[k] == byte_of(
            words[k / 8],
            if lowest_first {
                shift_of(k)
            } else {
                shift_of(7 - k % 8)
            },
        )
}

/// `bytemuck::cast_slice` of two runs of words: each as the bytes it is in memory. The
/// order of the bytes in a word is the machine's, and the same in both.
#[verifier::external_body]
fn cast_words<'a, 'b>(words: &'a [u64], probe: &'b [u64]) -> (r: (&'a [u8], &'b [u8]))
    ensures
        (are_words(words@, r.0@, true) && are_words(probe@, r.1@, true)) || (are_words(words@, r.0@, false) && are_words(
            probe@,
            r.1@,
            false,
        )),
{
    (bytemuck::cast_slice(words), bytemuck::cast_slice(probe))
}

/// The bytes of a binary: those of its owner, or a copy.
#[derive(Debug)]
pub enum ByteView<'a> {
    Borrowed(&'a [u8]),
    Owned(Vec<u8>),
}

impl<'a> ByteView<'a> {
    /// The bytes.
    pub open spec fn view(&self) -> Seq<u8> {
        match self {
            ByteView::Borrowed(b) => b@,
            ByteView::Owned(v) => v@,
        }
    }

    /// The bytes.
    pub fn as_slice(&self) -> (b: &[u8])
        ensures
            b@ == self@,
    {
        match self {
            ByteView::Borrowed(b) => b,
            ByteView::Owned(v) => v.as_slice(),
        }
    }

    /// How many there are.
    pub fn len(&self) -> (n: usize)
        ensures
            n == self@.len(),
    {
        self.as_slice().len()
    }
}

/// The order of the bytes in a word shows in the bytes of a one.
proof fn order_shows(bytes: Seq<u8>, lowest_first: bool)
    requires
        are_words(seq![1u64], bytes, lowest_first),
    ensures
        (bytes[0] == 1) == lowest_first,
{
    assert(bytes[0] == byte_of(
        1u64,
        if lowest_first {
            shift_of(0)
        } else {
            shift_of(7)
        },
    ));
    assert((1u64 >> 0u64) as u8 == 1 && (1u64 >> 56u64) as u8 == 0) by (bit_vector);
}

/// Whether a machine keeps the lowest byte of a word first, by the bytes of a one in its
/// memory.
pub open spec fn is_lowest_first(one: Seq<u8>) -> bool {
    are_words(seq![1u64], one, true)
}

/// The bytes that are the words of an owner, and those that are a one, in the memory of one
/// machine: in both the lowest byte of a word is first, or in both the highest.
pub open spec fn in_memory(words: Seq<u64>, all: Seq<u8>, one: Seq<u8>) -> bool {
    exists|lowest_first: bool| #[trigger]
        are_words(words, all, lowest_first) && are_words(seq![1u64], one, lowest_first)
}

/// Whether a machine keeps the lowest byte of a word first, by the bytes of a one in its
/// memory.
pub fn lowest_first(one: &[u8]) -> (yes: bool)
    requires
        are_words(seq![1u64], one@, true) || are_words(seq![1u64], one@, false),
    ensures
        yes == is_lowest_first(one@),
{
    proof {
        if are_words(seq![1u64], one@, true) {
            order_shows(one@, true);
        }
        if are_words(seq![1u64], one@, false) {
            order_shows(one@, false);
        }
    }
    one[0] == 1
}

/// Whether this machine keeps the lowest byte of a word first, so that the bytes of an owner
/// lie in its words in order, as [`lowest_first`] finds it of a one in memory. Which it is, is
/// the machine's.
pub fn bytes_in_place() -> (yes: bool) {
    let one: [u64; 1] = [1];
    let (_, probe) = cast_words(&one, &one);
    assert(one@ =~= seq![1u64]);
    lowest_first(probe)
}

/// The bytes of `b` among those of its owner in memory, if they lie there in order: exactly
/// where `b` is of whole bytes, starts on a byte of its owner, and the machine keeps the lowest
/// byte of a word first. `all` is the owner's words in memory, after its length, and `one` a
/// one.
pub fn placed<'a>(heap: &Heap, b: Bits, all: &'a [u8], one: &[u8]) -> (r: Option<&'a [u8]>)
    requires
        heap.sound(),
        b.is_in(heap@),
        in_memory(heap@[b.owner.0].data.skip(1), all@, one@),
    ensures
        r is Some <==> b.len % 8 == 0 && b.at % 8 == 0 && is_lowest_first(one@),
        match r {
            Some(out) => out@ == to_bytes(b.of(heap@)),
            None => true,
        },
{
    if b.len % 8 != 0 || b.at % 8 != 0 {
        return None;
    }
    let ghost d = heap@[b.owner.0].data;
    let ghost bits = b.of(heap@);
    let ghost words = d.skip(1);
    let ghost lowest_first = choose|lowest_first: bool| #[trigger]
        are_words(words, all@, lowest_first) && are_words(seq![1u64], one@, lowest_first);
    if !self::lowest_first(one) {
        return None;
    }
    proof {
        order_shows(one@, lowest_first);
        order_shows(one@, true);
    }
    let from = (b.at / 8) as usize;
    let n = (b.len / 8) as usize;
    assert(from + n <= all@.len());
    let out = vstd::slice::slice_subrange(all, from, from + n);
    proof {
        assert forall|k: int| 0 <= k < n implies out@[k] == to_bytes(bits)[k] by {
            byte_at(bits, k);
            let i = from + k;
            assert(words[i / 8] == d[1 + i / 8]);
            assert(out@[k] == owner_byte_at(d, i));
            assert forall|j: u8| j < 8 implies #[trigger] bit_of(out@[k], j) == bit_or_clear(bits, 8 * k + j) by {
                let p = b.at + 8 * k + j;
                assert(p / 8 == i && p % 8 == j);
                assert(bits[8 * k + j] == owner_bit(d, p));
            }
            byte_is(out@[k], bits, 8 * k);
        }
        assert(out@ =~= to_bytes(bits));
    }
    Some(out)
}

/// The bytes of `b` where they lie, if they lie there in order, as [`placed`] says of what is
/// in this machine's memory. That is never so where `b` is not of whole bytes or does not start
/// on a byte of its owner; where it is and does, the order of the bytes in a word decides,
/// which is the machine's.
fn in_place(heap: &Heap, b: Bits) -> (r: Option<&[u8]>)
    requires
        heap.sound(),
        b.is_in(heap@),
    ensures
        match r {
            Some(out) => b.len % 8 == 0 && b.at % 8 == 0 && out@ == to_bytes(b.of(heap@)),
            None => true,
        },
{
    let data = heap.data(b.owner);
    let words = vstd::slice::slice_subrange(data.as_slice(), 1, data.len());
    let one: [u64; 1] = [1];
    let (all, probe) = cast_words(words, &one);
    proof {
        assert(one@ =~= seq![1u64]);
        assert(words@ =~= heap@[b.owner.0].data.skip(1));
        assert(are_words(words@, all@, true) || are_words(words@, all@, false));
    }
    placed(heap, b, all, probe)
}

/// The bytes of `b`, the last filled up with clear bits: read where they lie when they can
/// be, and copied when not. They are copied where `b` is not of whole bytes or does not
/// start on a byte of its owner; where it is and does, the machine decides.
pub fn byte_view(heap: &Heap, b: Bits) -> (view: ByteView)
    requires
        heap.sound(),
        b.is_in(heap@),
    ensures
        view@ == to_bytes(b.of(heap@)),
        view is Borrowed ==> b.len % 8 == 0 && b.at % 8 == 0,
{
    match in_place(heap, b) {
        Some(list) => ByteView::Borrowed(list),
        None => ByteView::Owned(bytes(heap, b)),
    }
}

/// The whole bytes from bit `at` on, wherever that is in a byte.
pub open spec fn bytes_at(bits: Seq<bool>, at: int) -> Seq<u8> {
    Seq::new(
        (if at <= bits.len() {
            (bits.len() - at) / 8
        } else {
            0
        }) as nat,
        |k: int| byte_from(bits, at + 8 * k),
    )
}

/// How many bytes the code point takes that a byte leads, if it can lead one.
fn width(b0: u8) -> (n: Option<u64>)
    ensures
        n == (if b0 < 0x80 {
            Some(1u64)
        } else if 0xC0 <= b0 <= 0xDF {
            Some(2u64)
        } else if 0xE0 <= b0 <= 0xEF {
            Some(3u64)
        } else if 0xF0 <= b0 <= 0xF7 {
            Some(4u64)
        } else {
            None
        }),
{
    assert((b0 >> 5 == 0b110) == (0xC0 <= b0 <= 0xDF) && (b0 >> 4 == 0b1110) == (0xE0 <= b0 <= 0xEF) && (b0 >> 3 == 0b11110) == (
    0xF0 <= b0 <= 0xF7)) by (bit_vector);
    if b0 < 0x80 {
        Some(1)
    } else if b0 >> 5 == 0b110 {
        Some(2)
    } else if b0 >> 4 == 0b1110 {
        Some(3)
    } else if b0 >> 3 == 0b11110 {
        Some(4)
    } else {
        None
    }
}

/// Whether a byte goes on with a code point.
fn goes_on(b: u8) -> (yes: bool)
    ensures
        yes == vstd::utf8::is_continuation_byte(b),
{
    0x80 <= b && b <= 0xBF
}

/// The UTF-8 code point at bit `at` of `b`, and how many bits it took, or `None` when no
/// valid one starts there.
pub fn read_utf8(heap: &Heap, b: Bits, at: u64) -> (r: Option<(u32, u64)>)
    requires
        heap.sound(),
        b.is_in(heap@),
    ensures
        ({
            let list = bytes_at(b.of(heap@), at as int);
            r == (if valid_first_scalar(list) {
                Some((decode_first_scalar(list), (8 * length_of_first_scalar(list)) as u64))
            } else {
                None
            })
        }),
{
    let ghost list = bytes_at(b.of(heap@), at as int);
    if at > b.len || b.len - at < 8 {
        return None;
    }
    let b0 = byte(heap, b, at);
    assert(list[0] == b0);
    let n = match width(b0) {
        Some(n) => n,
        None => {
            return None;
        },
    };
    if b.len - at < n * 8 {
        return None;
    }
    let code: u32;
    if n == 1 {
        code = (b0 & 0x7F) as u32;
        assert((b0 & 0x7F) as u32 <= 0x7F) by (bit_vector);
    } else {
        let b1 = byte(heap, b, at + 8);
        assert(list[1] == b1);
        if !goes_on(b1) {
            return None;
        }
        if n == 2 {
            code = (((b0 & 0x1F) as u32) << 6) | (b1 & 0x3F) as u32;
            if code < 0x80 {
                return None;
            }
        } else {
            let b2 = byte(heap, b, at + 16);
            assert(list[2] == b2);
            if !goes_on(b2) {
                return None;
            }
            if n == 3 {
                code = (((b0 & 0x0F) as u32) << 12) | (((b1 & 0x3F) as u32) << 6) | (b2 & 0x3F) as u32;
                if code < 0x800 {
                    return None;
                }
            } else {
                let b3 = byte(heap, b, at + 24);
                assert(list[3] == b3);
                if !goes_on(b3) {
                    return None;
                }
                code = (((b0 & 0x07) as u32) << 18) | (((b1 & 0x3F) as u32) << 12) | (((b2 & 0x3F) as u32) << 6) | (b3 & 0x3F) as u32;
                if code < 0x10000 || code > 0x10FFFF {
                    return None;
                }
            }
        }
    }
    assert(code == decode_first_codepoint(list));
    if 0xD800 <= code && code <= 0xDFFF {
        return None;
    }
    Some((code, n * 8))
}

} // verus!
