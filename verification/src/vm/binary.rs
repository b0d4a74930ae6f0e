//! Binaries: strings of bits.
//!
//! Bits are counted from the most significant bit of the first byte, and the bits past a
//! binary's end in its last byte are clear. A binary is one of two cells: an owner, which
//! holds the bits, or a slice, which names an owner, a bit to start at and a length. A
//! slice of a slice names the owner, so there is never a chain of them. [`Bits`] is
//! either, as these bits of this owner, and everything that reads a binary reads it so.
use vstd::prelude::*;
use vstd::string::StringExecFns;

use crate::text::{decimal, push_decimal};
use crate::vm::bits::{
    bit_of, bit_or_clear, byte_at, byte_from, byte_from_has, byte_is, byte_of, put_byte, shift_of,
    to_bytes, with_byte, zero_bits,
};
use crate::vm::heap::{
    all_ok, cell_ok, is_owner, is_slice, owner_bit, owner_byte_at, Cells, Heap, Kind,
};
use crate::vm::value::{from_word, word_cell, Cell};

verus! {

/// The most bits that one binary can hold: a cell's words, 64 bits each.
pub const MAX_BITS: u64 = 17179869184;

/// The most bytes that a binary can hold: a cell's words, less its header and the word
/// with its length.
pub const MAX_BYTES: usize = 2147483632;

/// `len` bits of the bytes of `owner`, from bit `at` on.
#[derive(Clone, Copy, Debug)]
pub struct Bits {
    pub owner: Cell,
    pub at: u64,
    pub len: u64,
}

impl Bits {
    /// The bits are in an owner.
    pub open spec fn is_in(self, m: Cells) -> bool {
        &&& m.contains_key(self.owner.0)
        &&& m[self.owner.0].kind is Binary
        &&& is_owner(m[self.owner.0].data)
        &&& self.at + self.len <= m[self.owner.0].data[0]
    }

    /// The bits themselves.
    pub open spec fn of(self, m: Cells) -> Seq<bool> {
        Seq::new(self.len as nat, |i: int| owner_bit(m[self.owner.0].data, self.at + i))
    }
}

/// All the bits of an owner.
pub open spec fn whole(m: Cells, c: Cell) -> Bits {
    Bits { owner: c, at: 0, len: m[c.0].data[0] }
}

/// The bits that a cell holds: an owner all of its own, a slice those it names, and
/// another kind of cell none.
pub open spec fn bits_at(m: Cells, c: Cell) -> Option<Bits> {
    if m.contains_key(c.0) && m[c.0].kind is Binary {
        Some(whole(m, c))
    } else if m.contains_key(c.0) && m[c.0].kind is BinarySlice {
        let d = m[c.0].data;
        Some(Bits { owner: word_cell(d[0])->0, at: d[1], len: d[2] })
    } else {
        None
    }
}

/// The bits that a cell holds, or `None` when it is not a binary.
pub fn bits(heap: &Heap, cell: Cell) -> (b: Option<Bits>)
    requires
        heap.sound(),
        all_ok(heap@),
    ensures
        b == bits_at(heap@, cell),
        b is Some ==> b->0.is_in(heap@),
{
    let kind = match heap.kind(cell) {
        Some(kind) => kind,
        None => {
            return None;
        },
    };
    assert(cell_ok(heap@, cell.0));
    match kind {
        Kind::Binary => {
            let d = heap.data(cell);
            Some(Bits { owner: cell, at: 0, len: d[0] })
        },
        Kind::BinarySlice => {
            let d = heap.data(cell);
            match from_word(d[0]) {
                Some(owner) => {
                    assert(is_slice(heap@, heap@[cell.0].data));
                    assert(cell_ok(heap@, owner.0));
                    Some(Bits { owner, at: d[1], len: d[2] })
                },
                None => None,
            }
        },
        _ => None,
    }
}

/// Byte `i` of an owner, or 0 past its end.
pub fn owner_byte(heap: &Heap, owner: Cell, i: u64) -> (b: u8)
    requires
        heap.sound(),
        heap@.contains_key(owner.0),
    ensures
        b == owner_byte_at(heap@[owner.0].data, i as int),
{
    let d = heap.data(owner);
    if i / 8 + 1 < d.len() as u64 {
        let w = d[1 + (i / 8) as usize];
        (w >> ((i % 8) * 8)) as u8
    } else {
        0
    }
}

/// Two bytes shifted together.
proof fn shifted_together(hi: u8, lo: u8, s: u8, j: u8)
    requires
        0 < s < 8,
        j < 8,
    ensures
        bit_of((hi << s) | (lo >> ((8 - s) as u8)), j) == (if s + j < 8 {
            bit_of(hi, (s + j) as u8)
        } else {
            bit_of(lo, (s + j - 8) as u8)
        }),
{
    let t = (8 - s) as u8;
    let a = if s + j < 8 {
        (s + j) as u8
    } else {
        (s + j - 8) as u8
    };
    assert((((hi << s) | (lo >> t)) & (0x80u8 >> j) != 0) == (if s + j < 8 {
        hi & (0x80u8 >> a) != 0
    } else {
        lo & (0x80u8 >> a) != 0
    })) by (bit_vector)
        requires
            0 < s < 8,
            j < 8,
            t == 8 - s,
            s + j < 8 ==> a == s + j,
            s + j >= 8 ==> a == s + j - 8,
    ;
}

/// The top `n` bits of a byte.
pub proof fn top_bits(b: u8, n: u8, j: u8)
    requires
        n <= 8,
        j < 8,
    ensures
        n > 0 ==> bit_of(b & (0xFFu8 << ((8 - n) as u8)), j) == (bit_of(b, j) && j < n),
{
    if n > 0 {
        let t = (8 - n) as u8;
        assert(((b & (0xFFu8 << t)) & (0x80u8 >> j) != 0) == (b & (0x80u8 >> j) != 0 && j < n)) by (bit_vector)
            requires
                0 < n <= 8,
                j < 8,
                t == 8 - n,
        ;
    }
}

/// The eight bits of `b` from bit `i` on, those past its end clear.
pub fn byte(heap: &Heap, b: Bits, i: u64) -> (v: u8)
    requires
        heap.sound(),
        b.is_in(heap@),
    ensures
        v == byte_from(b.of(heap@), i as int),
{
    let ghost bits = b.of(heap@);
    if i >= b.len {
        proof {
            assert forall|j: u8| j < 8 implies #[trigger] bit_of(0, j) == bit_or_clear(bits, i + j) by {
                zero_bits(j);
            }
            byte_is(0, bits, i as int);
        }
        return 0;
    }
    let ghost d = heap@[b.owner.0].data;
    let p = b.at + i;
    let s = (p % 8) as u8;
    let hi = owner_byte(heap, b.owner, p / 8);
    let raw = if s == 0 {
        hi
    } else {
        let lo = owner_byte(heap, b.owner, p / 8 + 1);
        (hi << s) | (lo >> (8 - s))
    };
    proof {
        assert forall|j: u8| j < 8 implies #[trigger] bit_of(raw, j) == owner_bit(d, p + j) by {
            if s == 0 {
                assert((p + j) / 8 == p / 8 && (p + j) % 8 == j);
            } else {
                shifted_together(hi, owner_byte_at(d, p / 8 + 1), s, j);
                if s + j < 8 {
                    assert((p + j) / 8 == p / 8 && (p + j) % 8 == s + j);
                } else {
                    assert((p + j) / 8 == p / 8 + 1 && (p + j) % 8 == s + j - 8);
                }
            }
        }
    }
    let left = b.len - i;
    if left >= 8 {
        proof {
            assert forall|j: u8| j < 8 implies #[trigger] bit_of(raw, j) == bit_or_clear(bits, i + j) by {
                assert(bits[i + j] == owner_bit(d, p + j));
            }
            byte_is(raw, bits, i as int);
        }
        raw
    } else {
        let n = left as u8;
        let v = raw & (0xFFu8 << (8 - n));
        proof {
            assert forall|j: u8| j < 8 implies #[trigger] bit_of(v, j) == bit_or_clear(bits, i + j) by {
                top_bits(raw, n, j);
                assert(bit_of(raw, j) == owner_bit(d, p + j));
                if j < n {
                    assert(bits[i + j] == owner_bit(d, p + j));
                }
            }
            byte_is(v, bits, i as int);
        }
        v
    }
}

/// A word with the bytes of `bytes`, the first lowest.
pub open spec fn is_word_of(w: u64, bytes: Seq<u8>) -> bool {
    forall|j: int| 0 <= j < 8 ==> #[trigger] byte_of(w, shift_of(j)) == bytes[j]
}

/// A word with one more of its bytes in place.
proof fn next_byte_of_word(w: u64, j: int, v: u8, bytes: Seq<u8>)
    requires
        0 <= j < 8,
        bytes[j] == v,
        forall|m: int| 0 <= m < j ==> #[trigger] byte_of(w, shift_of(m)) == bytes[m],
    ensures
        forall|m: int| 0 <= m < j + 1 ==> #[trigger] byte_of(with_byte(w, shift_of(j), v), shift_of(m)) == bytes[m],
{
    assert forall|m: int| 0 <= m < j + 1 implies #[trigger] byte_of(with_byte(w, shift_of(j), v), shift_of(m)) == bytes[m] by {
        put_byte(w, shift_of(j), v, shift_of(m));
    }
}

/// A byte of a word of an owner is eight of its bits.
proof fn word_byte_is(d: Seq<u64>, b: Bits, bits: Seq<bool>, k: int, j: int)
    requires
        b.at % 64 == 0,
        0 <= k,
        0 <= j < 8,
        (k + 1) * 64 <= b.len,
        bits == Seq::new(b.len as nat, |i: int| owner_bit(d, b.at + i)),
        1 + b.at / 64 + k < d.len(),
    ensures
        byte_of(d[1 + b.at / 64 + k], shift_of(j)) == byte_from(bits, 8 * (8 * k + j)),
{
    let at = b.at as int / 64 + k;
    let i = 8 * (8 * k + j);
    let v = byte_of(d[1 + at], shift_of(j));
    assert forall|m: u8| m < 8 implies #[trigger] bit_of(v, m) == bit_or_clear(bits, i + m) by {
        let q = b.at + i + m;
        assert(q / 8 == 8 * at + j && q % 8 == m);
        assert((q / 8) / 8 == at && (q / 8) % 8 == j);
        assert(bits[i + m] == owner_bit(d, q));
    }
    byte_is(v, bits, i);
}

/// Word `k` of the bytes of `b`, the first byte lowest, or `None` when it runs past the
/// end.
pub fn word(heap: &Heap, b: Bits, k: u64) -> (w: Option<u64>)
    requires
        heap.sound(),
        b.is_in(heap@),
    ensures
        w is Some <==> (k + 1) * 64 <= b.len,
        match w {
            Some(w) => is_word_of(w, to_bytes(b.of(heap@)).subrange(8 * k, 8 * k + 8)),
            None => true,
        },
{
    if k >= b.len / 64 {
        return None;
    }
    let ghost bits = b.of(heap@);
    let ghost bytes = to_bytes(bits).subrange(8 * k, 8 * k + 8);
    let ghost d = heap@[b.owner.0].data;
    if b.at % 64 == 0 {
        let at = b.at / 64 + k;
        let words = heap.data(b.owner);
        assert(1 + at < words@.len());
        let w = words[1 + at as usize];
        proof {
            assert forall|j: int| 0 <= j < 8 implies #[trigger] byte_of(w, shift_of(j)) == bytes[j] by {
                word_byte_is(d, b, bits, k as int, j);
                byte_at(bits, 8 * k + j);
            }
        }
        return Some(w);
    }
    let mut w: u64 = 0;
    let mut j: u64 = 0;
    while j < 8
        invariant
            j <= 8,
            heap.sound(),
            b.is_in(heap@),
            bits == b.of(heap@),
            (k + 1) * 64 <= b.len,
            bytes == to_bytes(bits).subrange(8 * k, 8 * k + 8),
            forall|m: int| 0 <= m < j ==> #[trigger] byte_of(w, shift_of(m)) == bytes[m],
        decreases 8 - j,
    {
        let v = byte(heap, b, k * 64 + j * 8);
        let s = j * 8;
        let ghost w0 = w;
        w = w & !(0xFFu64 << s) | ((v as u64) << s);
        proof {
            byte_at(bits, 8 * k + j);
            assert(bytes[j as int] == v);
            assert(s == shift_of(j as int));
            assert(w == with_byte(w0, shift_of(j as int), v));
            next_byte_of_word(w0, j as int, v, bytes);
        }
        j += 1;
    }
    Some(w)
}

/// Bytes `from` up to `to` of `b`.
fn collect(heap: &Heap, b: Bits, from: u64, to: u64) -> (out: Vec<u8>)
    requires
        heap.sound(),
        b.is_in(heap@),
        from <= to,
        to <= (b.len + 7) / 8,
    ensures
        out@ == to_bytes(b.of(heap@)).subrange(from as int, to as int),
{
    let ghost all = to_bytes(b.of(heap@));
    let mut out: Vec<u8> = Vec::new();
    let mut k = from;
    assert(out@ =~= all.subrange(from as int, from as int));
    while k < to
        invariant
            from <= k <= to,
            to <= (b.len + 7) / 8,
            heap.sound(),
            b.is_in(heap@),
            all == to_bytes(b.of(heap@)),
            out@ == all.subrange(from as int, k as int),
        decreases to - k,
    {
        out.push(byte(heap, b, k * 8));
        assert(out@ =~= all.subrange(from as int, k + 1));
        k += 1;
    }
    out
}

/// Bytes `from` up to `from + n` of `b`, or `None` when they run past its end.
pub fn byte_range(heap: &Heap, b: Bits, from: u64, n: u64) -> (out: Option<Vec<u8>>)
    requires
        heap.sound(),
        b.is_in(heap@),
    ensures
        out is Some <==> (from + n) * 8 <= b.len,
        match out {
            Some(bytes) => bytes@ == to_bytes(b.of(heap@)).subrange(from as int, from + n),
            None => true,
        },
{
    let whole = b.len / 8;
    if from > whole || n > whole - from {
        return None;
    }
    Some(collect(heap, b, from, from + n))
}

/// Up to `n` whole bytes of `b` from byte `from` on, fewer where it ends first.
pub fn bytes_from(heap: &Heap, b: Bits, from: u64, n: u64) -> (out: Vec<u8>)
    requires
        heap.sound(),
        b.is_in(heap@),
    ensures
        ({
            let whole = b.len as int / 8;
            let start = if from < whole {
                from as int
            } else {
                whole
            };
            let end = if start + n < whole {
                start + n
            } else {
                whole
            };
            out@ == to_bytes(b.of(heap@)).subrange(start, end)
        }),
{
    let whole = b.len / 8;
    let start = if from < whole {
        from
    } else {
        whole
    };
    let end = if n < whole - start {
        start + n
    } else {
        whole
    };
    collect(heap, b, start, end)
}

/// Whether the bytes of `b` from byte `from` on are `text`.
pub fn bytes_are(heap: &Heap, b: Bits, from: u64, text: &[u8]) -> (yes: bool)
    requires
        heap.sound(),
        b.is_in(heap@),
    ensures
        yes == ((from + text@.len()) * 8 <= b.len && to_bytes(b.of(heap@)).subrange(from as int, from + text@.len()) == text@),
{
    let whole = b.len / 8;
    let n = text.len() as u64;
    if from > whole || n > whole - from {
        return false;
    }
    let ghost all = to_bytes(b.of(heap@));
    let ghost part = all.subrange(from as int, from + n);
    let mut k: usize = 0;
    while k < text.len()
        invariant
            k <= text@.len(),
            n == text@.len(),
            heap.sound(),
            b.is_in(heap@),
            all == to_bytes(b.of(heap@)),
            (from + n) * 8 <= b.len,
            part == all.subrange(from as int, from + n),
            forall|i: int| 0 <= i < k ==> part[i] == text@[i],
        decreases text@.len() - k,
    {
        let v = byte(heap, b, (from + k as u64) * 8);
        assert(part[k as int] == v);
        if v != text[k] {
            return false;
        }
        k += 1;
    }
    assert(part =~= text@);
    true
}

/// `b` as whole bytes, the last filled up with clear bits.
pub fn bytes(heap: &Heap, b: Bits) -> (out: Vec<u8>)
    requires
        heap.sound(),
        b.is_in(heap@),
    ensures
        out@ == to_bytes(b.of(heap@)),
{
    let out = collect(heap, b, 0, (b.len + 7) / 8);
    assert(out@ =~= to_bytes(b.of(heap@)));
    out
}

/// The whole bytes of `b`: a last byte that is not whole is left out.
pub fn whole_bytes(heap: &Heap, b: Bits) -> (out: Vec<u8>)
    requires
        heap.sound(),
        b.is_in(heap@),
    ensures
        out@ == to_bytes(b.of(heap@)).take(b.len as int / 8),
{
    collect(heap, b, 0, b.len / 8)
}

/// Whole byte `i` of `b`, or `None` past the last whole one.
pub fn whole_byte(heap: &Heap, b: Bits, i: u64) -> (v: Option<u8>)
    requires
        heap.sound(),
        b.is_in(heap@),
    ensures
        v == (if i < b.len as int / 8 {
            Some(to_bytes(b.of(heap@))[i as int])
        } else {
            None
        }),
{
    if i < b.len / 8 {
        Some(byte(heap, b, i * 8))
    } else {
        None
    }
}

/// Bits are the same exactly if there are as many and their bytes are the same.
proof fn same_bytes(a: Seq<bool>, b: Seq<bool>)
    requires
        a.len() == b.len(),
        to_bytes(a) == to_bytes(b),
    ensures
        a == b,
{
    assert forall|i: int| 0 <= i < a.len() implies a[i] == b[i] by {
        let k = i / 8;
        let j = (i % 8) as u8;
        byte_at(a, k);
        byte_at(b, k);
        byte_from_has(a, 8 * k);
        byte_from_has(b, 8 * k);
        assert(bit_of(byte_from(a, 8 * k), j) == bit_or_clear(a, 8 * k + j));
        assert(bit_of(byte_from(b, 8 * k), j) == bit_or_clear(b, 8 * k + j));
        assert(8 * k + j == i);
    }
    assert(a =~= b);
}

/// Whether `a` and `b` hold the same bits.
pub fn equal(heap: &Heap, a: Bits, b: Bits) -> (yes: bool)
    requires
        heap.sound(),
        a.is_in(heap@),
        b.is_in(heap@),
    ensures
        yes == (a.of(heap@) == b.of(heap@)),
{
    if a.len != b.len {
        assert(a.of(heap@).len() != b.of(heap@).len());
        return false;
    }
    let n = (a.len + 7) / 8;
    let ghost (x, y) = (to_bytes(a.of(heap@)), to_bytes(b.of(heap@)));
    let mut k: u64 = 0;
    while k < n
        invariant
            k <= n,
            n == (a.len + 7) / 8,
            a.len == b.len,
            heap.sound(),
            a.is_in(heap@),
            b.is_in(heap@),
            x == to_bytes(a.of(heap@)),
            y == to_bytes(b.of(heap@)),
            forall|i: int| 0 <= i < k ==> x[i] == y[i],
        decreases n - k,
    {
        if byte(heap, a, k * 8) != byte(heap, b, k * 8) {
            assert(x[k as int] != y[k as int]);
            return false;
        }
        assert(x[k as int] == y[k as int]);
        k += 1;
    }
    proof {
        assert(x =~= y);
        same_bytes(a.of(heap@), b.of(heap@));
    }
    true
}

/// Whether `b` holds `prefix` from bit `at` on.
pub fn has_at(heap: &Heap, b: Bits, at: u64, prefix: Bits) -> (yes: bool)
    requires
        heap.sound(),
        b.is_in(heap@),
        prefix.is_in(heap@),
    ensures
        yes == (at + prefix.len <= b.len && b.of(heap@).subrange(at as int, at + prefix.len) == prefix.of(heap@)),
{
    if at > b.len || prefix.len > b.len - at {
        return false;
    }
    let window = Bits { owner: b.owner, at: b.at + at, len: prefix.len };
    assert(window.of(heap@) =~= b.of(heap@).subrange(at as int, at + prefix.len));
    equal(heap, window, prefix)
}

/// A byte in decimal, as it shows in a list.
pub open spec fn shown_bytes(bytes: Seq<u8>) -> Seq<char>
    decreases bytes.len(),
{
    if bytes.len() == 0 {
        Seq::empty()
    } else if bytes.len() == 1 {
        decimal(bytes[0] as nat)
    } else {
        shown_bytes(bytes.drop_last()) + ", "@ + decimal(bytes.last() as nat)
    }
}

/// The value of the `n` bits that end some bits, which are not a whole byte.
pub open spec fn last_bits(bits: Seq<bool>) -> u8 {
    let n = bits.len() as int % 8;
    byte_from(bits, bits.len() - n) >> ((8 - n) as u8)
}

/// How a binary shows: `<<1, 2, 3>>`, a last byte that is not whole as `5:size(3)`.
pub open spec fn shown(bits: Seq<bool>) -> Seq<char> {
    let whole = to_bytes(bits).take(bits.len() as int / 8);
    let n = bits.len() % 8;
    let rest = if n == 0 {
        Seq::empty()
    } else {
        (if whole.len() == 0 {
            Seq::empty()
        } else {
            ", "@
        }) + decimal(last_bits(bits) as nat) + ":size("@ + decimal(n) + ")"@
    };
    "<<"@ + shown_bytes(whole) + rest + ">>"@
}

/// How a binary shows.
pub fn text(heap: &Heap, b: Bits) -> (out: String)
    requires
        heap.sound(),
        b.is_in(heap@),
    ensures
        out@ == shown(b.of(heap@)),
{
    let ghost bits = b.of(heap@);
    let whole = whole_bytes(heap, b);
    let mut out = String::new();
    out.append("<<");
    let mut k: usize = 0;
    assert(out@ =~= "<<"@ + shown_bytes(whole@.take(0)));
    while k < whole.len()
        invariant
            k <= whole@.len(),
            out@ == "<<"@ + shown_bytes(whole@.take(k as int)),
        decreases whole@.len() - k,
    {
        let ghost before = out@;
        if k > 0 {
            out.append(", ");
        }
        push_decimal(&mut out, whole[k] as u64);
        proof {
            let t = whole@.take(k + 1);
            assert(t.drop_last() =~= whole@.take(k as int));
            assert(t.last() == whole@[k as int]);
            assert(out@ =~= "<<"@ + shown_bytes(t));
        }
        k += 1;
    }
    assert(whole@.take(k as int) =~= whole@);
    let n = b.len % 8;
    if n != 0 {
        if whole.len() > 0 {
            out.append(", ");
        }
        let last = byte(heap, b, b.len - n) >> (8 - n as u8);
        push_decimal(&mut out, last as u64);
        out.append(":size(");
        push_decimal(&mut out, n);
        out.append(")");
    }
    out.append(">>");
    assert(out@ =~= shown(bits));
    out
}

/// A slice names an owner, never another slice, whatever it was cut from.
pub proof fn a_slice_names_an_owner(m: Cells, c: Cell)
    requires
        all_ok(m),
        m.contains_key(c.0),
        m[c.0].kind is BinarySlice,
    ensures
        bits_at(m, c) is Some,
        bits_at(m, c)->0.is_in(m),
        m[(bits_at(m, c)->0).owner.0].kind is Binary,
{
    assert(cell_ok(m, c.0));
    assert(cell_ok(m, (word_cell(m[c.0].data[0])->0).0));
}

/// Cutting a slice out of a slice is cutting it out of the whole.
pub proof fn a_slice_of_a_slice(m: Cells, b: Bits, from: u64, len: u64, from2: u64, len2: u64)
    requires
        b.is_in(m),
        from + len <= b.len,
        from2 + len2 <= len,
        b.at + b.len <= u64::MAX,
    ensures
        b.of(m).subrange(from as int, from + len).subrange(from2 as int, from2 + len2) == b.of(m).subrange(
            from + from2,
            from + from2 + len2,
        ),
        (Bits { owner: b.owner, at: (b.at + from + from2) as u64, len: len2 }).of(m) == b.of(m).subrange(
            from + from2,
            from + from2 + len2,
        ),
{
    assert((Bits { owner: b.owner, at: (b.at + from + from2) as u64, len: len2 }).of(m) =~= b.of(m).subrange(
        from + from2,
        from + from2 + len2,
    ));
    assert(b.of(m).subrange(from as int, from + len).subrange(from2 as int, from2 + len2) =~= b.of(m).subrange(
        from + from2,
        from + from2 + len2,
    ));
}

} // verus!
