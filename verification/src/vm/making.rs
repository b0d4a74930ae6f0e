//! Making binaries: from bytes, from part of one, and from many joined.
use vstd::prelude::*;

use crate::vm::binary::{bytes, top_bits, whole, Bits};
use crate::vm::bits::{
    bit_of, bit_or_clear, bits_in, byte_at, byte_from, byte_from_has, byte_is, byte_of, shift_of,
    to_bytes, zero_bits, zero_bytes,
};
use crate::vm::heap::{
    all_ok, bytes_put, cell_ok, data_byte, data_bytes, fresh_cell_is_ok, is_owner, is_slice, owner_bit, owner_byte_at,
    shared, slices_of, CellView, Cells, Full, Heap, Kind, MAX_CELLS, MAX_CELL_WORDS,
};
use crate::vm::value::{cell_word, to_word, word_names_its_cell, Cell};

verus! {

/// The words of an owner of so many bits.
pub open spec fn owner_words(len: int) -> int {
    1 + (len + 63) / 64
}

/// There is room for a binary of so many bits.
pub open spec fn has_room(m: Cells, len: int) -> bool {
    owner_words(len) < MAX_CELL_WORDS && m.dom().len() < MAX_CELLS
}

/// `c` is a new owner of these bits, and nothing else has changed.
pub open spec fn is_new_binary(old_cells: Cells, new_cells: Cells, c: Cell, bits: Seq<bool>) -> bool {
    &&& !old_cells.contains_key(c.0)
    &&& new_cells.contains_key(c.0)
    &&& new_cells == old_cells.insert(c.0, new_cells[c.0])
    &&& new_cells[c.0].kind is Binary
    &&& new_cells[c.0].refs == 1
    &&& is_owner(new_cells[c.0].data)
    &&& whole(new_cells, c).of(new_cells) == bits
}

/// The words are an owner's, but for its bytes, of which those past the last that holds
/// a bit are zero.
pub open spec fn is_begun(d: Seq<u64>, len: int) -> bool {
    &&& d.len() == owner_words(len)
    &&& d.len() + 1 <= MAX_CELL_WORDS
    &&& d[0] == len
    &&& forall|k: int| (len + 7) / 8 <= k ==> #[trigger] owner_byte_at(d, k) == 0
}

/// The first bytes of an owner hold these bits.
pub open spec fn holds_bytes(d: Seq<u64>, bits: Seq<bool>, n: int) -> bool {
    forall|k: int| 0 <= k < n ==> #[trigger] owner_byte_at(d, k) == byte_from(bits, 8 * k)
}

/// Words whose bytes hold some bits are an owner of them.
proof fn owner_is(d: Seq<u64>, bits: Seq<bool>)
    requires
        is_begun(d, bits.len() as int),
        holds_bytes(d, bits, (bits.len() as int + 7) / 8),
    ensures
        is_owner(d),
        forall|p: int| 0 <= p < bits.len() ==> #[trigger] owner_bit(d, p) == bits[p],
{
    assert forall|p: int| 0 <= p implies #[trigger] owner_bit(d, p) == bit_or_clear(bits, p) by {
        let k = p / 8;
        let j = (p % 8) as u8;
        if k < (bits.len() + 7) / 8 {
            byte_from_has(bits, 8 * k);
            assert(owner_byte_at(d, k) == byte_from(bits, 8 * k));
            assert(bit_of(byte_from(bits, 8 * k), j) == bit_or_clear(bits, 8 * k + j));
            assert(8 * k + j == p);
        } else {
            assert(owner_byte_at(d, k) == 0);
            zero_bits(j);
        }
    }
    assert forall|p: int| d[0] <= p implies !(#[trigger] owner_bit(d, p)) by {
        assert(owner_bit(d, p) == bit_or_clear(bits, p));
    }
}

/// A binary that is done is new.
pub proof fn binary_is_new(before: Cells, after: Cells, c: Cell, bits: Seq<bool>)
    requires
        all_ok(before),
        !before.contains_key(c.0),
        after.contains_key(c.0),
        after == before.insert(c.0, after[c.0]),
        after[c.0].kind is Binary,
        after[c.0].refs == 1,
        is_begun(after[c.0].data, bits.len() as int),
        holds_bytes(after[c.0].data, bits, (bits.len() as int + 7) / 8),
    ensures
        is_new_binary(before, after, c, bits),
        all_ok(after),
{
    owner_is(after[c.0].data, bits);
    fresh_cell_is_ok(before, c.0, after[c.0]);
    assert(whole(after, c).of(after) =~= bits);
}

/// A word is its bytes.
proof fn word_is_its_bytes(v: u64, w: u64)
    requires
        forall|i: int| 0 <= i < 8 ==> #[trigger] byte_of(v, shift_of(i)) == byte_of(w, shift_of(i)),
    ensures
        v == w,
{
    assert(byte_of(v, shift_of(0)) == byte_of(w, shift_of(0)));
    assert(byte_of(v, shift_of(1)) == byte_of(w, shift_of(1)));
    assert(byte_of(v, shift_of(2)) == byte_of(w, shift_of(2)));
    assert(byte_of(v, shift_of(3)) == byte_of(w, shift_of(3)));
    assert(byte_of(v, shift_of(4)) == byte_of(w, shift_of(4)));
    assert(byte_of(v, shift_of(5)) == byte_of(w, shift_of(5)));
    assert(byte_of(v, shift_of(6)) == byte_of(w, shift_of(6)));
    assert(byte_of(v, shift_of(7)) == byte_of(w, shift_of(7)));
    assert(v == w) by (bit_vector)
        requires
            (v >> 0u64) as u8 == (w >> 0u64) as u8,
            (v >> 8u64) as u8 == (w >> 8u64) as u8,
            (v >> 16u64) as u8 == (w >> 16u64) as u8,
            (v >> 24u64) as u8 == (w >> 24u64) as u8,
            (v >> 32u64) as u8 == (w >> 32u64) as u8,
            (v >> 40u64) as u8 == (w >> 40u64) as u8,
            (v >> 48u64) as u8 == (w >> 48u64) as u8,
            (v >> 56u64) as u8 == (w >> 56u64) as u8,
    ;
}

/// What changing bytes behind the length does to an owner's bytes.
pub proof fn owner_bytes_put(d: Seq<u64>, at: int, b: Seq<u8>, e: Seq<u64>)
    requires
        d.len() >= 1,
        0 <= at,
        at + b.len() <= 8 * (d.len() - 1),
        bytes_put(d, 8 + at, b, e),
    ensures
        e.len() == d.len(),
        e[0] == d[0],
        forall|k: int|
            0 <= k ==> #[trigger] owner_byte_at(e, k) == (if at <= k < at + b.len() {
                b[k - at]
            } else {
                owner_byte_at(d, k)
            }),
{
    assert forall|i: int| 0 <= i < 8 implies #[trigger] byte_of(e[0], shift_of(i)) == byte_of(d[0], shift_of(i)) by {
        assert(data_byte(e, i) == data_byte(d, i));
    }
    word_is_its_bytes(e[0], d[0]);
    assert forall|k: int| 0 <= k implies #[trigger] owner_byte_at(e, k) == (if at <= k < at + b.len() {
        b[k - at]
    } else {
        owner_byte_at(d, k)
    }) by {
        if 1 + k / 8 < d.len() {
            assert((8 + k) / 8 == 1 + k / 8 && (8 + k) % 8 == k % 8);
            assert(owner_byte_at(e, k) == data_byte(e, 8 + k));
            assert(owner_byte_at(d, k) == data_byte(d, 8 + k));
        }
    }
}

/// A new cell for an owner of `len` bits, its bytes past the last zero.
pub(crate) fn begin(heap: &mut Heap, len: u64) -> (r: Result<Cell, Full>)
    requires
        old(heap).sound(),
    ensures
        final(heap).sound(),
        final(heap).freed() == old(heap).freed(),
        final(heap).copied_bytes() == old(heap).copied_bytes(),
        r is Ok <==> has_room(old(heap)@, len as int),
        match r {
            Ok(c) => {
                &&& !old(heap)@.contains_key(c.0)
                &&& final(heap)@.contains_key(c.0)
                &&& final(heap)@ == old(heap)@.insert(c.0, final(heap)@[c.0])
                &&& final(heap)@[c.0].kind is Binary
                &&& final(heap)@[c.0].refs == 1
                &&& is_begun(final(heap)@[c.0].data, len as int)
            },
            Err(_) => final(heap)@ == old(heap)@,
        },
{
    let ghost before = heap@;
    let words = 1 + len / 64 + (if len % 64 == 0 {
        0
    } else {
        1
    });
    assert(words == owner_words(len as int));
    if words >= MAX_CELL_WORDS as u64 {
        return Err(Full);
    }
    let n = words as usize;
    let c = match heap.make_uninit(Kind::Binary, n) {
        Ok(c) => c,
        Err(e) => {
            return Err(e);
        },
    };
    // A cell used again holds what it last held: the bytes past the last in its last word
    // must read as zeros, like any other bits past the end.
    heap.set_word(c, n - 1, 0);
    heap.set_word(c, 0, len);
    proof {
        let d = heap@[c.0].data;
        assert forall|k: int| (len as int + 7) / 8 <= k implies #[trigger] owner_byte_at(d, k) == 0 by {
            if 1 + k / 8 < d.len() {
                assert(1 + k / 8 == n - 1);
                zero_bytes(shift_of(k));
            }
        }
        assert(heap@ =~= before.insert(c.0, heap@[c.0]));
    }
    Ok(c)
}

/// Writes bytes into an owner from its byte `at` on.
pub fn write(heap: &mut Heap, cell: Cell, at: u64, list: &Vec<u8>)
    requires
        old(heap).sound(),
        old(heap)@.contains_key(cell.0),
        old(heap)@[cell.0].data.len() >= 1,
        at + list@.len() <= 8 * (old(heap)@[cell.0].data.len() - 1),
    ensures
        final(heap).sound(),
        final(heap).freed() == old(heap).freed(),
        final(heap).copied_bytes() == old(heap).copied_bytes(),
        final(heap)@.contains_key(cell.0),
        final(heap)@ == old(heap)@.insert(
            cell.0,
            (CellView { data: final(heap)@[cell.0].data, ..old(heap)@[cell.0] }),
        ),
        final(heap)@[cell.0].data.len() == old(heap)@[cell.0].data.len(),
        final(heap)@[cell.0].data[0] == old(heap)@[cell.0].data[0],
        forall|k: int|
            0 <= k ==> #[trigger] owner_byte_at(final(heap)@[cell.0].data, k) == (if at <= k < at + list@.len() {
                list@[k - at]
            } else {
                owner_byte_at(old(heap)@[cell.0].data, k)
            }),
{
    let ghost d = heap@[cell.0].data;
    let words = heap.data(cell).len();
    assert(at < 8 * MAX_CELL_WORDS);
    heap.put_bytes(cell, 8 + at as usize, list);
    proof {
        owner_bytes_put(d, at as int, list@, heap@[cell.0].data);
    }
}

/// `list` with the bits past `len` in its last byte cleared.
fn clear_tail(list: Vec<u8>, len: u64) -> (out: Vec<u8>)
    requires
        list@.len() == (len + 7) / 8,
    ensures
        out@ == to_bytes(bits_in(list@, len as int)),
{
    let ghost bits = bits_in(list@, len as int);
    let mut out = list;
    let n = out.len();
    let rest = (len % 8) as u8;
    if rest != 0 {
        let last = out[n - 1] & (0xFFu8 << (8 - rest));
        out.set(n - 1, last);
    }
    proof {
        assert forall|k: int| 0 <= k < n implies out@[k] == to_bytes(bits)[k] by {
            byte_at(bits, k);
            assert forall|j: u8| j < 8 implies #[trigger] bit_of(out@[k], j) == bit_or_clear(bits, 8 * k + j) by {
                let i = 8 * k + j;
                assert(i / 8 == k && i % 8 == j);
                if i < len {
                    assert(bits[i] == bit_of(list@[k], j));
                }
                if k == n - 1 && rest != 0 {
                    top_bits(list@[k], rest, j);
                    assert(i < len <==> j < rest);
                }
            }
            byte_is(out@[k], bits, 8 * k);
        }
        assert(out@ =~= to_bytes(bits));
    }
    out
}

/// The bytes that so many bits take.
pub open spec fn byte_count(len: u64) -> usize {
    ((len + 7) / 8) as usize
}

/// A new owner of `len` bits, with the bytes that `write` gives: it is told how many, and
/// gives as many. The bits past `len` in the last are cleared. Where `write` fails there
/// is no cell, and its error is the answer.
pub fn fill<E, F: FnOnce(usize) -> Result<Vec<u8>, E>>(heap: &mut Heap, len: u64, write_bytes: F) -> (r: Result<
    Result<Cell, E>,
    Full,
>)
    requires
        old(heap).sound(),
        all_ok(old(heap)@),
        write_bytes.requires((byte_count(len),)),
        forall|out: Vec<u8>| #[trigger] write_bytes.ensures((byte_count(len),), Ok(out)) ==> out@.len() == (len + 7) / 8,
    ensures
        final(heap).sound(),
        all_ok(final(heap)@),
        final(heap).freed() == old(heap).freed(),
        final(heap).copied_bytes() == old(heap).copied_bytes(),
        r is Ok <==> has_room(old(heap)@, len as int),
        match r {
            Ok(Ok(c)) => exists|out: Vec<u8>| #[trigger]
                write_bytes.ensures((byte_count(len),), Ok(out)) && is_new_binary(
                    old(heap)@,
                    final(heap)@,
                    c,
                    bits_in(out@, len as int),
                ),
            Ok(Err(e)) => final(heap)@ == old(heap)@ && write_bytes.ensures((byte_count(len),), Err(e)),
            Err(_) => final(heap)@ == old(heap)@,
        },
{
    let ghost before = heap@;
    let cell = match begin(heap, len) {
        Ok(c) => c,
        Err(e) => {
            return Err(e);
        },
    };
    assert(len <= 64 * MAX_CELL_WORDS);
    let n = ((len + 7) / 8) as usize;
    let list = match write_bytes(n) {
        Ok(list) => list,
        Err(e) => {
            heap.discard(cell);
            assert(heap@ =~= before);
            return Ok(Err(e));
        },
    };
    let ghost bits = bits_in(list@, len as int);
    let ghost given = list;
    let masked = clear_tail(list, len);
    write(heap, cell, 0, &masked);
    proof {
        assert forall|k: int| 0 <= k < (len + 7) / 8 implies #[trigger] owner_byte_at(heap@[cell.0].data, k) == byte_from(
            bits,
            8 * k,
        ) by {
            byte_at(bits, k);
        }
        assert(heap@ =~= before.insert(cell.0, heap@[cell.0]));
        binary_is_new(before, heap@, cell, bits);
        assert(write_bytes.ensures((n,), Ok(given)));
    }
    Ok(Ok(cell))
}

/// A new owner with the first `len` bits of some bytes, read as clear past their end.
pub fn make(heap: &mut Heap, list: &[u8], len: u64) -> (r: Result<Cell, Full>)
    requires
        old(heap).sound(),
        all_ok(old(heap)@),
    ensures
        final(heap).sound(),
        all_ok(final(heap)@),
        final(heap).freed() == old(heap).freed(),
        final(heap).copied_bytes() == old(heap).copied_bytes(),
        r is Ok <==> has_room(old(heap)@, len as int),
        match r {
            Ok(c) => is_new_binary(old(heap)@, final(heap)@, c, bits_in(list@, len as int)),
            Err(_) => final(heap)@ == old(heap)@,
        },
{
    let ghost before = heap@;
    let cell = match begin(heap, len) {
        Ok(c) => c,
        Err(e) => {
            return Err(e);
        },
    };
    assert(len <= 64 * MAX_CELL_WORDS);
    let n = ((len + 7) / 8) as usize;
    let mut all: Vec<u8> = Vec::new();
    while all.len() < n
        invariant
            all@.len() <= n,
            forall|k: int|
                0 <= k < all@.len() ==> #[trigger] all@[k] == (if k < list@.len() {
                    list@[k]
                } else {
                    0
                }),
        decreases n - all@.len(),
    {
        let k = all.len();
        all.push(
            if k < list.len() {
                list[k]
            } else {
                0
            },
        );
    }
    let ghost bits = bits_in(list@, len as int);
    assert(bits_in(all@, len as int) =~= bits) by {
        assert forall|i: int| 0 <= i < len implies bits_in(all@, len as int)[i] == bits[i] by {
            zero_bits((i % 8) as u8);
        }
    }
    let masked = clear_tail(all, len);
    write(heap, cell, 0, &masked);
    proof {
        assert forall|k: int| 0 <= k < (len + 7) / 8 implies #[trigger] owner_byte_at(heap@[cell.0].data, k) == byte_from(
            bits,
            8 * k,
        ) by {
            byte_at(bits, k);
        }
        assert(heap@ =~= before.insert(cell.0, heap@[cell.0]));
        binary_is_new(before, heap@, cell, bits);
    }
    Ok(cell)
}

/// A new slice, of an owner that gained a reference, leaves all cells well.
proof fn new_slice_is_ok(m: Cells, c: u32, b: Bits, from: int, len: int)
    requires
        all_ok(m),
        b.is_in(m),
        0 <= from,
        0 <= len,
        from + len <= b.len,
        !m.contains_key(c),
    ensures
        all_ok(shared(m, b.owner.0)),
        all_ok(
            shared(m, b.owner.0).insert(
                c,
                (CellView {
                    kind: Kind::BinarySlice,
                    data: seq![cell_word(b.owner), (b.at + from) as u64, len as u64],
                    refs: 1,
                }),
            ),
        ),
{
    let o = b.owner.0;
    let m1 = shared(m, o);
    let v = CellView {
        kind: Kind::BinarySlice,
        data: seq![cell_word(b.owner), (b.at + from) as u64, len as u64],
        refs: 1,
    };
    let m2 = m1.insert(c, v);
    word_names_its_cell(b.owner);
    assert(m1.dom() =~= m.dom());
    assert(m2.dom() =~= m.dom().insert(c));
    assert forall|k: u32| #[trigger] m1.contains_key(k) implies cell_ok(m1, k) by {
        assert(cell_ok(m, k));
        assert(slices_of(m1, k) =~= slices_of(m, k));
    }
    assert(slices_of(m2, c) =~= Set::empty()) by {
        assert forall|k: u32| !slices_of(m2, c).contains(k) by {
            if m2.contains_key(k) && m2[k].kind is BinarySlice {
                word_names_its_cell(Cell(c));
                if k != c {
                    assert(cell_ok(m, k));
                    assert(is_slice(m, m[k].data));
                }
            }
        }
    }
    assert forall|k: u32| #[trigger] m2.contains_key(k) implies cell_ok(m2, k) by {
        if k == c {
            assert(is_slice(m2, v.data));
        } else {
            assert(cell_ok(m, k));
            assert(slices_of(m, k).finite());
            if k == o {
                assert(Cell(k) == b.owner);
                assert(slices_of(m2, k) =~= slices_of(m, k).insert(c));
            } else {
                assert(slices_of(m2, k) =~= slices_of(m, k)) by {
                    word_names_its_cell(Cell(k));
                    assert(cell_word(Cell(k)) != cell_word(b.owner));
                }
            }
        }
    }
}

/// Bits `from` up to `from + len` of `b`, as a slice of its owner. Where there is no room
/// for it, the owner has gained a reference all the same.
pub fn slice(heap: &mut Heap, b: Bits, from: u64, len: u64) -> (r: Result<Cell, Full>)
    requires
        old(heap).sound(),
        all_ok(old(heap)@),
        b.is_in(old(heap)@),
        from + len <= b.len,
        old(heap)@[b.owner.0].refs < u64::MAX,
    ensures
        final(heap).sound(),
        all_ok(final(heap)@),
        final(heap).freed() == old(heap).freed(),
        final(heap).copied_bytes() == old(heap).copied_bytes(),
        r is Ok <==> old(heap)@.dom().len() < MAX_CELLS,
        match r {
            Ok(c) => {
                &&& !old(heap)@.contains_key(c.0)
                &&& final(heap)@ == shared(old(heap)@, b.owner.0).insert(
                    c.0,
                    (CellView {
                        kind: Kind::BinarySlice,
                        data: seq![cell_word(b.owner), (b.at + from) as u64, len],
                        refs: 1,
                    }),
                )
                &&& crate::vm::binary::bits_at(final(heap)@, c) == Some(Bits { owner: b.owner, at: (b.at + from) as u64, len })
                &&& (Bits { owner: b.owner, at: (b.at + from) as u64, len }).of(final(heap)@) == b.of(old(heap)@).subrange(
                    from as int,
                    from + len,
                )
            },
            Err(_) => final(heap)@ == shared(old(heap)@, b.owner.0),
        },
{
    let ghost before = heap@;
    heap.share(b.owner);
    let words: Vec<u64> = vec![to_word(b.owner), b.at + from, len];
    assert(words@ =~= seq![cell_word(b.owner), (b.at + from) as u64, len]);
    assert(shared(before, b.owner.0).dom() =~= before.dom());
    let r = heap.make(Kind::BinarySlice, words);
    proof {
        match r {
            Ok(c) => {
                new_slice_is_ok(before, c.0, b, from as int, len as int);
                word_names_its_cell(b.owner);
                let s = Bits { owner: b.owner, at: (b.at + from) as u64, len };
                assert(s.of(heap@) =~= b.of(before).subrange(from as int, from + len));
            },
            Err(_) => {
                shared_is_ok(before, b.owner.0);
            },
        }
    }
    r
}

/// A cell that gained a reference leaves all cells well.
pub proof fn shared_is_ok(m: Cells, c: u32)
    requires
        all_ok(m),
        m.contains_key(c),
    ensures
        all_ok(shared(m, c)),
{
    let m1 = shared(m, c);
    assert(m1.dom() =~= m.dom());
    assert forall|k: u32| #[trigger] m1.contains_key(k) implies cell_ok(m1, k) by {
        assert(cell_ok(m, k));
        assert(slices_of(m1, k) =~= slices_of(m, k));
    }
}

/// A cell that holds a string: how many bytes it is, then the bytes.
pub open spec fn is_string(c: CellView, bytes: Seq<u8>) -> bool {
    &&& c.kind is String
    &&& c.refs == 1
    &&& c.data.len() == 1 + (bytes.len() + 7) / 8
    &&& c.data[0] == bytes.len()
    &&& data_bytes(c.data, 8, bytes.len() as int) == bytes
}

/// A cell that holds a string.
pub fn string(heap: &mut Heap, list: &[u8]) -> (r: Result<Cell, Full>)
    requires
        old(heap).sound(),
        all_ok(old(heap)@),
    ensures
        final(heap).sound(),
        all_ok(final(heap)@),
        final(heap).freed() == old(heap).freed(),
        final(heap).copied_bytes() == old(heap).copied_bytes(),
        r is Ok <==> 1 + (list@.len() + 7) / 8 < MAX_CELL_WORDS && old(heap)@.dom().len() < MAX_CELLS,
        match r {
            Ok(c) => {
                &&& !old(heap)@.contains_key(c.0)
                &&& final(heap)@.contains_key(c.0)
                &&& final(heap)@ == old(heap)@.insert(c.0, final(heap)@[c.0])
                &&& is_string(final(heap)@[c.0], list@)
            },
            Err(_) => final(heap)@ == old(heap)@,
        },
{
    let ghost before = heap@;
    let n = list.len();
    let words = 1 + n / 8 + (if n % 8 == 0 {
        0
    } else {
        1
    });
    if words >= MAX_CELL_WORDS {
        return Err(Full);
    }
    let c = match heap.make_uninit(Kind::String, words) {
        Ok(c) => c,
        Err(e) => {
            return Err(e);
        },
    };
    heap.set_word(c, words - 1, 0);
    heap.set_word(c, 0, n as u64);
    let ghost d1 = heap@[c.0].data;
    let copy = vstd::slice::slice_to_vec(list);
    heap.put_bytes(c, 8, &copy);
    proof {
        let d = heap@[c.0].data;
        owner_bytes_put(d1, 0, copy@, d);
        assert(data_bytes(d, 8, n as int) =~= list@);
        assert(heap@ =~= before.insert(c.0, heap@[c.0]));
        fresh_cell_is_ok(before, c.0, heap@[c.0]);
    }
    Ok(c)
}

} // verus!
