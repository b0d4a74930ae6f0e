//! Many binaries joined into one.
use vstd::prelude::*;

use crate::vm::binary::{byte, bytes, Bits, MAX_BITS};
use crate::vm::bits::{
    bit_of, bit_or_clear, bits_in, byte_at, byte_from, byte_from_has, byte_is, to_bytes, zero_bits,
};
use crate::vm::heap::{
    all_ok, bytes_put, data_bytes, owner_bit, owner_byte_at, CellView, Cells, Full, Heap,
    MAX_CELL_WORDS,
};
use crate::vm::making::{
    begin, binary_is_new, byte_count, fill, has_room, holds_bytes, is_begun, is_new_binary, make,
    owner_bytes_put,
};
use crate::vm::reading::bytes_in_place;
use crate::vm::value::Cell;

verus! {

/// All the bits of some parts, one after another.
pub open spec fn flat(m: Cells, parts: Seq<Bits>) -> Seq<bool>
    decreases parts.len(),
{
    if parts.len() == 0 {
        Seq::empty()
    } else {
        flat(m, parts.drop_last()) + parts.last().of(m)
    }
}

/// How many bits some parts have between them.
pub open spec fn total(parts: Seq<Bits>) -> int
    decreases parts.len(),
{
    if parts.len() == 0 {
        0
    } else {
        total(parts.drop_last()) + parts.last().len
    }
}

/// The bytes of a part that are copied from cell to cell: all that are whole, where it
/// lands on a byte and starts on one.
pub open spec fn copied_of(at: int, p: Bits) -> int {
    if at % 8 == 0 && p.at % 8 == 0 {
        p.len as int / 8
    } else {
        0
    }
}

/// The bytes of some parts, the first of which lands at bit `at`, that are copied from
/// cell to cell.
pub open spec fn copied_of_all(at: int, parts: Seq<Bits>) -> int
    decreases parts.len(),
{
    if parts.len() == 0 {
        0
    } else {
        copied_of_all(at, parts.drop_last()) + copied_of(at + total(parts.drop_last()), parts.last())
    }
}

/// All the bits of some parts, `n` times over.
pub open spec fn rounds(m: Cells, parts: Seq<Bits>, n: nat) -> Seq<bool>
    decreases n,
{
    if n == 0 {
        Seq::empty()
    } else {
        rounds(m, parts, (n - 1) as nat) + flat(m, parts)
    }
}

/// The bytes of some parts, `n` times over, that are copied from cell to cell.
pub open spec fn copied_of_rounds(parts: Seq<Bits>, n: nat) -> int
    decreases n,
{
    if n == 0 {
        0
    } else {
        copied_of_rounds(parts, (n - 1) as nat) + copied_of_all((n - 1) * total(parts), parts)
    }
}

/// What is copied from cell to cell of `n` bytes that could be: all of them where the bytes of
/// an owner lie `in_place` in its words, and else none.
pub open spec fn where_placed(in_place: bool, n: int) -> int {
    if in_place {
        n
    } else {
        0
    }
}

/// A count, and `n` more, which stops at the largest.
pub open spec fn counted(count: u64, n: int) -> u64 {
    if count + n <= u64::MAX {
        (count + n) as u64
    } else {
        u64::MAX
    }
}

/// The flat bits are as many as the parts have between them.
pub proof fn flat_len(m: Cells, parts: Seq<Bits>)
    ensures
        flat(m, parts).len() == total(parts),
        0 <= total(parts),
    decreases parts.len(),
{
    if parts.len() > 0 {
        flat_len(m, parts.drop_last());
    }
}

/// A count of bytes is not negative.
proof fn copied_is_a_count(at: int, parts: Seq<Bits>)
    ensures
        0 <= copied_of_all(at, parts),
    decreases parts.len(),
{
    if parts.len() > 0 {
        copied_is_a_count(at, parts.drop_last());
    }
}

/// A count of bytes is not negative.
proof fn copied_in_rounds_is_a_count(parts: Seq<Bits>, n: nat)
    ensures
        0 <= copied_of_rounds(parts, n),
    decreases n,
{
    if n > 0 {
        copied_in_rounds_is_a_count(parts, (n - 1) as nat);
        copied_is_a_count((n - 1) * total(parts), parts);
    }
}

/// The rounds are as many bits as there are rounds of.
proof fn rounds_len(m: Cells, parts: Seq<Bits>, n: nat)
    ensures
        rounds(m, parts, n).len() == n * total(parts),
    decreases n,
{
    flat_len(m, parts);
    let t = total(parts);
    if n == 0 {
        assert(0 * t == 0) by (nonlinear_arith);
    } else {
        rounds_len(m, parts, (n - 1) as nat);
        assert((n - 1) * t + t == n * t) by (nonlinear_arith);
    }
}

/// A binary that is being written, `at` bits in. `carry` holds the bits of the byte that
/// is not whole yet, and `run` the whole bytes before it that are not in the cell yet.
pub struct Joined {
    pub cell: Cell,
    pub at: u64,
    pub carry: u8,
    pub run: Vec<u8>,
}

/// The most bytes that a run holds before they go to the cell.
pub const RUN: usize = 4096;

impl Joined {
    /// The first byte that is not in the cell.
    pub open spec fn start(&self) -> int {
        self.at as int / 8 - self.run@.len()
    }

    /// `done` has been written, of `len` bits, into a cell that `base` has not.
    pub open spec fn has_written(&self, base: Cells, m: Cells, len: int, done: Seq<bool>) -> bool {
        &&& !base.contains_key(self.cell.0)
        &&& m.contains_key(self.cell.0)
        &&& m == base.insert(self.cell.0, m[self.cell.0])
        &&& m[self.cell.0].kind is Binary
        &&& m[self.cell.0].refs == 1
        &&& is_begun(m[self.cell.0].data, len)
        &&& done.len() <= len
        &&& self.at == done.len()
        &&& self.run@.len() <= self.at as int / 8
        &&& holds_bytes(m[self.cell.0].data, done, self.start())
        &&& forall|k: int| 0 <= k < self.run@.len() ==> #[trigger] self.run@[k] == byte_from(done, 8 * (self.start() + k))
        &&& self.carry == byte_from(done, 8 * (self.at as int / 8))
    }

    /// Puts the run in the cell, where it ends at the byte that `carry` is part of.
    pub fn flush(&mut self, heap: &mut Heap, Ghost(base): Ghost<Cells>, Ghost(len): Ghost<int>, Ghost(done): Ghost<Seq<bool>>)
        requires
            old(heap).sound(),
            old(self).has_written(base, old(heap)@, len, done),
        ensures
            final(heap).sound(),
            final(heap).freed() == old(heap).freed(),
            final(heap).copied_bytes() == old(heap).copied_bytes(),
            final(self).has_written(base, final(heap)@, len, done),
            final(self).run@.len() == 0,
            final(self).cell == old(self).cell,
            final(self).at == old(self).at,
            final(self).carry == old(self).carry,
    {
        if self.run.len() == 0 {
            return;
        }
        let ghost before = heap@;
        let ghost d0 = before[self.cell.0].data;
        let ghost start = self.start();
        let ghost run0 = self.run@;
        let end = self.at / 8;
        crate::vm::making::write(heap, self.cell, end - self.run.len() as u64, &self.run);
        self.run = Vec::new();
        proof {
            let d = heap@[self.cell.0].data;
            assert forall|k: int| 0 <= k < end implies #[trigger] owner_byte_at(d, k) == byte_from(done, 8 * k) by {
                if k < start {
                    assert(owner_byte_at(d0, k) == byte_from(done, 8 * k));
                } else {
                    assert(run0[k - start] == byte_from(done, 8 * (start + (k - start))));
                }
            }
            assert forall|k: int| (len + 7) / 8 <= k implies #[trigger] owner_byte_at(d, k) == 0 by {
                assert(owner_byte_at(d0, k) == 0);
            }
            assert(heap@ =~= base.insert(self.cell.0, heap@[self.cell.0]));
        }
    }

    /// Adds the top `n` bits of `chunk`, the rest of which are clear.
    pub fn push(
        &mut self,
        heap: &mut Heap,
        chunk: u8,
        n: u64,
        Ghost(base): Ghost<Cells>,
        Ghost(len): Ghost<int>,
        Ghost(done): Ghost<Seq<bool>>,
    )
        requires
            old(heap).sound(),
            old(self).has_written(base, old(heap)@, len, done),
            1 <= n <= 8,
            done.len() + n <= len,
            forall|j: u8| n <= j < 8 ==> !(#[trigger] bit_of(chunk, j)),
        ensures
            final(heap).sound(),
            final(heap).freed() == old(heap).freed(),
            final(heap).copied_bytes() == old(heap).copied_bytes(),
            final(self).has_written(base, final(heap)@, len, done + top_of(chunk, n as int)),
            final(self).cell == old(self).cell,
    {
        let ghost more = top_of(chunk, n as int);
        let ghost now = done + more;
        let ghost q = self.at as int / 8;
        let ghost start = self.start();
        let ghost run0 = self.run@;
        let s = (self.at % 8) as u8;
        let v = self.carry | (chunk >> s);
        proof {
            carried(done, self.carry, chunk, n as int, s, q);
            assert forall|k: int| 0 <= k < q implies #[trigger] byte_from(now, 8 * k) == byte_from(done, 8 * k) by {
                appended(done, more, k);
            }
            assert(len <= 64 * MAX_CELL_WORDS);
        }
        let ghost d = heap@[self.cell.0].data;
        if s as u64 + n >= 8 {
            self.run.push(v);
            // What did not fit, moved to the top: the low `s` bits of `chunk`.
            self.carry = if s == 0 {
                0
            } else {
                chunk << (8 - s)
            };
        } else {
            self.carry = v;
        }
        self.at = self.at + n;
        proof {
            assert(self.start() == start);
            assert forall|k: int| 0 <= k < start implies #[trigger] owner_byte_at(d, k) == byte_from(now, 8 * k) by {
                assert(owner_byte_at(d, k) == byte_from(done, 8 * k));
                assert(byte_from(now, 8 * k) == byte_from(done, 8 * k));
            }
            assert forall|k: int| 0 <= k < self.run@.len() implies #[trigger] self.run@[k] == byte_from(
                now,
                8 * (self.start() + k),
            ) by {
                if k < run0.len() {
                    assert(self.run@[k] == run0[k]);
                    assert(byte_from(now, 8 * (start + k)) == byte_from(done, 8 * (start + k)));
                }
            }
            assert(self.carry == byte_from(now, 8 * (self.at as int / 8)));
            assert(self.has_written(base, heap@, len, now));
        }
        if self.run.len() >= RUN {
            self.flush(heap, Ghost(base), Ghost(len), Ghost(now));
        }
    }
}

/// The top `n` bits of a byte.
pub open spec fn top_of(b: u8, n: int) -> Seq<bool> {
    Seq::new(n as nat, |j: int| bit_of(b, j as u8))
}

/// A byte that is whole does not change when more bits follow.
proof fn appended(done: Seq<bool>, more: Seq<bool>, k: int)
    requires
        0 <= k,
        8 * k + 8 <= done.len(),
    ensures
        byte_from(done + more, 8 * k) == byte_from(done, 8 * k),
{
    let v = byte_from(done, 8 * k);
    byte_from_has(done, 8 * k);
    assert forall|j: u8| j < 8 implies #[trigger] bit_of(v, j) == bit_or_clear(done + more, 8 * k + j) by {
        assert((done + more)[8 * k + j] == done[8 * k + j]);
    }
    byte_is(v, done + more, 8 * k);
}

/// The bits of a byte that another is shifted into.
proof fn shifted_in(c: u8, x: u8, s: u8, j: u8)
    requires
        s < 8,
        j < 8,
    ensures
        bit_of(c | (x >> s), j) == (bit_of(c, j) || (s <= j && bit_of(x, (j - s) as u8))),
        s > 0 ==> bit_of(x << ((8 - s) as u8), j) == (j < s && bit_of(x, (j + 8 - s) as u8)),
{
    let a = if s <= j {
        (j - s) as u8
    } else {
        0u8
    };
    assert(((c | (x >> s)) & (0x80u8 >> j) != 0) == (c & (0x80u8 >> j) != 0 || (s <= j && x & (0x80u8 >> a) != 0)))
        by (bit_vector)
        requires
            s < 8,
            j < 8,
            s <= j ==> a == j - s,
    ;
    if s > 0 {
        let t = (8 - s) as u8;
        let b = if j < s {
            (j + 8 - s) as u8
        } else {
            0u8
        };
        assert(((x << t) & (0x80u8 >> j) != 0) == (j < s && x & (0x80u8 >> b) != 0)) by (bit_vector)
            requires
                0 < s < 8,
                j < 8,
                t == 8 - s,
                j < s ==> b == j + 8 - s,
        ;
    }
}

/// What the byte being filled, and the one after it, hold once more bits are in.
proof fn carried(done: Seq<bool>, carry: u8, chunk: u8, n: int, s: u8, q: int)
    requires
        q == done.len() as int / 8,
        s == done.len() as int % 8,
        carry == byte_from(done, 8 * q),
        1 <= n <= 8,
        forall|j: u8| n <= j < 8 ==> !(#[trigger] bit_of(chunk, j)),
    ensures
        carry | (chunk >> s) == byte_from(done + top_of(chunk, n), 8 * q),
        s > 0 ==> chunk << ((8 - s) as u8) == byte_from(done + top_of(chunk, n), 8 * (q + 1)),
        s == 0 ==> byte_from(done + top_of(chunk, n), 8 * (q + 1)) == 0,
{
    let more = top_of(chunk, n);
    let now = done + more;
    byte_from_has(done, 8 * q);
    let v = carry | (chunk >> s);
    assert forall|j: u8| j < 8 implies #[trigger] bit_of(v, j) == bit_or_clear(now, 8 * q + j) by {
        shifted_in(carry, chunk, s, j);
        assert(bit_of(carry, j) == bit_or_clear(done, 8 * q + j));
        if j < s {
            assert(now[8 * q + j] == done[8 * q + j]);
        } else if j - s < n {
            assert(now[8 * q + j] == more[j - s]);
        } else {
            assert(!bit_of(chunk, (j - s) as u8));
        }
    }
    byte_is(v, now, 8 * q);
    if s > 0 {
        let w = chunk << ((8 - s) as u8);
        assert forall|j: u8| j < 8 implies #[trigger] bit_of(w, j) == bit_or_clear(now, 8 * (q + 1) + j) by {
            shifted_in(carry, chunk, s, j);
            let i = j + 8 - s;
            if i < n {
                assert(now[8 * (q + 1) + j] == more[i]);
            } else if i < 8 {
                assert(!bit_of(chunk, i as u8));
            }
        }
        byte_is(w, now, 8 * (q + 1));
    } else {
        assert forall|j: u8| j < 8 implies #[trigger] bit_of(0, j) == bit_or_clear(now, 8 * (q + 1) + j) by {
            zero_bits(j);
        }
        byte_is(0, now, 8 * (q + 1));
    }
}

/// A byte from past the end on is zero.
proof fn nothing_past_the_end(bits: Seq<bool>, i: int)
    requires
        bits.len() <= i,
    ensures
        byte_from(bits, i) == 0,
{
    assert forall|j: u8| j < 8 implies #[trigger] bit_of(0, j) == bit_or_clear(bits, i + j) by {
        zero_bits(j);
    }
    byte_is(0, bits, i);
}

/// The parts of an owner that starts on a byte are its bytes.
proof fn byte_of_part(d: Seq<u64>, p: Bits, bits: Seq<bool>, k: int)
    requires
        p.at % 8 == 0,
        0 <= k,
        8 * k + 8 <= p.len,
        bits == Seq::new(p.len as nat, |i: int| owner_bit(d, p.at + i)),
    ensures
        owner_byte_at(d, p.at as int / 8 + k) == byte_from(bits, 8 * k),
{
    let v = owner_byte_at(d, p.at as int / 8 + k);
    assert forall|j: u8| j < 8 implies #[trigger] bit_of(v, j) == bit_or_clear(bits, 8 * k + j) by {
        let q = p.at + 8 * k + j;
        assert(q / 8 == p.at as int / 8 + k && q % 8 == j);
        assert(bits[8 * k + j] == owner_bit(d, q));
    }
    byte_is(v, bits, 8 * k);
}

/// The byte at a place that bits were added from.
proof fn byte_of_added(done: Seq<bool>, more: Seq<bool>, k: int)
    requires
        done.len() % 8 == 0,
        0 <= k,
        8 * k + 8 <= more.len(),
    ensures
        byte_from(done + more, done.len() + 8 * k) == byte_from(more, 8 * k),
{
    byte_from_has(more, 8 * k);
    let v = byte_from(more, 8 * k);
    assert forall|j: u8| j < 8 implies #[trigger] bit_of(v, j) == bit_or_clear(done + more, done.len() + 8 * k + j) by {
        assert((done + more)[done.len() + 8 * k + j] == more[8 * k + j]);
    }
    byte_is(v, done + more, done.len() + 8 * k);
}

/// Copies the first `n` bytes of `p`, which starts on a byte of its owner, into the owner
/// `cell` from its byte `at` on. `false`, and nothing is copied, where they do not fit.
pub fn copy_whole(heap: &mut Heap, p: Bits, cell: Cell, at: u64, n: u64) -> (done: bool)
    requires
        old(heap).sound(),
        old(heap)@.contains_key(p.owner.0),
        old(heap)@.contains_key(cell.0),
        p.owner != cell,
    ensures
        final(heap).sound(),
        final(heap).freed() == old(heap).freed(),
        done == (8 + p.at / 8 + n <= 8 * old(heap)@[p.owner.0].data.len() && 8 + at + n <= 8 * old(
            heap,
        )@[cell.0].data.len()),
        final(heap)@.contains_key(cell.0),
        final(heap)@ == old(heap)@.insert(
            cell.0,
            (CellView { data: final(heap)@[cell.0].data, ..old(heap)@[cell.0] }),
        ),
        done ==> bytes_put(
            old(heap)@[cell.0].data,
            8 + at,
            data_bytes(old(heap)@[p.owner.0].data, 8 + p.at / 8, n as int),
            final(heap)@[cell.0].data,
        ),
        !done ==> final(heap)@ == old(heap)@,
        final(heap).copied_bytes() == (if done {
            counted(old(heap).copied_bytes(), n as int)
        } else {
            old(heap).copied_bytes()
        }),
{
    let ghost before = heap@;
    let from_bytes = 8 * heap.data(p.owner).len() as u64;
    let to_bytes = 8 * heap.data(cell).len() as u64;
    if p.at / 8 > from_bytes || at > to_bytes || n > to_bytes {
        assert(before.insert(cell.0, (CellView { data: before[cell.0].data, ..before[cell.0] })) =~= before);
        return false;
    }
    // An owner's bytes follow the word with its length.
    heap.copy_bytes(p.owner, (8 + p.at / 8) as usize, cell, (8 + at) as usize, n as usize)
}

impl Joined {
    /// Adds the whole bytes of `p`, which land on a byte and start on one, from cell to cell.
    fn add_whole(
        &mut self,
        heap: &mut Heap,
        p: Bits,
        Ghost(base): Ghost<Cells>,
        Ghost(len): Ghost<int>,
        Ghost(done): Ghost<Seq<bool>>,
    ) -> (n: u64)
        requires
            old(heap).sound(),
            old(self).has_written(base, old(heap)@, len, done),
            p.is_in(base),
            done.len() + p.len <= len,
            old(self).at % 8 == 0,
            p.at % 8 == 0,
        ensures
            n == p.len / 8,
            final(heap).sound(),
            final(heap).freed() == old(heap).freed(),
            final(heap).copied_bytes() == counted(old(heap).copied_bytes(), n as int),
            final(self).has_written(base, final(heap)@, len, done + p.of(base).take(8 * n)),
            final(self).cell == old(self).cell,
    {
        let ghost bits = p.of(base);
        self.flush(heap, Ghost(base), Ghost(len), Ghost(done));
        let n = p.len / 8;
        let ghost m1 = heap@;
        let ghost d1 = heap@[self.cell.0].data;
        let ghost src = base[p.owner.0].data;
        assert(m1[p.owner.0] == base[p.owner.0]);
        let fits = copy_whole(heap, p, self.cell, self.at / 8, n);
        assert(fits);
        self.at = self.at + n * 8;
        proof {
            let more = bits.take(8 * n);
            let now = done + more;
            let q = done.len() as int / 8;
            let d = heap@[self.cell.0].data;
            let list = data_bytes(src, 8 + p.at / 8, n as int);
            owner_bytes_put(d1, q, list, d);
            assert forall|i: int| 0 <= i < q + n implies #[trigger] owner_byte_at(d, i) == byte_from(now, 8 * i) by {
                if i < q {
                    assert(owner_byte_at(d1, i) == byte_from(done, 8 * i));
                    appended(done, more, i);
                } else {
                    let e = i - q;
                    assert(list[e] == owner_byte_at(src, p.at as int / 8 + e)) by {
                        let b = 8 + p.at / 8 + e;
                        assert(b / 8 == 1 + (p.at as int / 8 + e) / 8 && b % 8 == (p.at as int / 8 + e) % 8);
                    }
                    byte_of_part(src, p, bits, e);
                    byte_of_added(done, more, e);
                    byte_of_take(bits, 8 * n, e);
                    assert(done.len() + 8 * e == 8 * i);
                }
            }
            assert forall|i: int| (len + 7) / 8 <= i implies #[trigger] owner_byte_at(d, i) == 0 by {
                assert(owner_byte_at(d1, i) == 0);
            }
            nothing_past_the_end(done, 8 * q);
            nothing_past_the_end(now, now.len() as int);
            assert(heap@ =~= base.insert(self.cell.0, heap@[self.cell.0]));
            assert(self.has_written(base, heap@, len, now));
        }
        n
    }

    /// Adds the bits of `p`: where they land on a byte, and start on one, and bytes lie
    /// `in_place`, their whole bytes are copied from cell to cell, and the others go eight
    /// bits at a time.
    fn add_part(
        &mut self,
        heap: &mut Heap,
        p: Bits,
        in_place: bool,
        Ghost(base): Ghost<Cells>,
        Ghost(len): Ghost<int>,
        Ghost(done): Ghost<Seq<bool>>,
    )
        requires
            old(heap).sound(),
            old(self).has_written(base, old(heap)@, len, done),
            p.is_in(base),
            done.len() + p.len <= len,
        ensures
            final(heap).sound(),
            final(heap).freed() == old(heap).freed(),
            final(heap).copied_bytes() == counted(
                old(heap).copied_bytes(),
                where_placed(in_place, copied_of(done.len() as int, p)),
            ),
            final(self).has_written(base, final(heap)@, len, done + p.of(base)),
            final(self).cell == old(self).cell,
    {
        let ghost bits = p.of(base);
        let ghost copied0 = heap.copied_bytes();
        let mut k: u64 = 0;
        assert(done + bits.take(0) =~= done);
        if in_place && self.at % 8 == 0 && p.at % 8 == 0 {
            k = self.add_whole(heap, p, Ghost(base), Ghost(len), Ghost(done));
        }
        let end = (p.len + 7) / 8;
        let ghost copied1 = heap.copied_bytes();
        let ghost freed = heap.freed();
        let cell = self.cell;
        while k < end
            invariant
                k <= end,
                end == (p.len + 7) / 8,
                heap.sound(),
                heap.freed() == freed,
                heap.copied_bytes() == copied1,
                p.is_in(base),
                bits == p.of(base),
                done.len() + p.len <= len,
                self.cell == cell,
                self.has_written(base, heap@, len, done + bits.take(first_of(k as int, p.len as int))),
            decreases end - k,
        {
            let ghost now = done + bits.take(8 * k);
            assert(heap@[p.owner.0] == base[p.owner.0]);
            assert(p.of(heap@) =~= bits);
            let chunk = byte(heap, p, k * 8);
            let left = p.len - k * 8;
            let n = if left < 8 {
                left
            } else {
                8
            };
            proof {
                byte_from_has(bits, 8 * k);
                assert forall|j: u8| n <= j < 8 implies !(#[trigger] bit_of(chunk, j)) by {
                    assert(bit_of(chunk, j) == bit_or_clear(bits, 8 * k + j));
                }
                assert forall|j: int| 0 <= j < n implies top_of(chunk, n as int)[j] == bits[8 * k + j] by {
                    assert(bit_of(chunk, j as u8) == bit_or_clear(bits, 8 * k + j as u8));
                }
                assert(now + top_of(chunk, n as int) =~= done + bits.take(first_of(k + 1, p.len as int)));
            }
            self.push(heap, chunk, n, Ghost(base), Ghost(len), Ghost(now));
            k += 1;
        }
        assert(bits.take(p.len as int) =~= bits);
    }
}

/// The bits that `k` chunks of eight make, of `len`.
spec fn first_of(k: int, len: int) -> int {
    if 8 * k < len {
        8 * k
    } else {
        len
    }
}

/// A whole byte of the first bits is one of all of them.
proof fn byte_of_take(bits: Seq<bool>, n: int, k: int)
    requires
        0 <= n <= bits.len(),
        0 <= k,
        8 * k + 8 <= n,
    ensures
        byte_from(bits.take(n), 8 * k) == byte_from(bits, 8 * k),
{
    appended(bits.take(n), bits.skip(n), k);
    assert(bits.take(n) + bits.skip(n) =~= bits);
}

/// Parts one of which comes after the others.
proof fn one_more_part(m: Cells, at: int, parts: Seq<Bits>, i: int)
    requires
        0 <= i < parts.len(),
    ensures
        flat(m, parts.take(i + 1)) == flat(m, parts.take(i)) + parts[i].of(m),
        total(parts.take(i + 1)) == total(parts.take(i)) + parts[i].len,
        copied_of_all(at, parts.take(i + 1)) == copied_of_all(at, parts.take(i)) + copied_of(
            at + total(parts.take(i)),
            parts[i],
        ),
{
    let t = parts.take(i + 1);
    assert(t.drop_last() =~= parts.take(i));
    assert(t.last() == parts[i]);
}

/// The first parts have no more bits than all.
proof fn total_grows(parts: Seq<Bits>, i: int)
    requires
        0 <= i <= parts.len(),
    ensures
        total(parts.take(i)) <= total(parts),
    decreases parts.len() - i,
{
    if i < parts.len() {
        total_grows(parts, i + 1);
        one_more_part(Map::empty(), 0, parts, i);
    } else {
        assert(parts.take(i) =~= parts);
    }
}

/// All of `parts`, one after another and `n` times over, which are `len` bits between
/// them, as a new owner. Only where bytes lie `in_place` is any copied from cell to cell.
pub fn join_as(heap: &mut Heap, len: u64, parts: &[Bits], n: u64, in_place: bool) -> (r: Result<Cell, Full>)
    requires
        old(heap).sound(),
        all_ok(old(heap)@),
        forall|i: int| 0 <= i < parts@.len() ==> (#[trigger] parts@[i]).is_in(old(heap)@),
        len == n * total(parts@),
    ensures
        final(heap).sound(),
        all_ok(final(heap)@),
        final(heap).freed() == old(heap).freed(),
        r is Ok <==> has_room(old(heap)@, len as int),
        match r {
            Ok(c) => {
                &&& is_new_binary(old(heap)@, final(heap)@, c, rounds(old(heap)@, parts@, n as nat))
                &&& final(heap).copied_bytes() == counted(
                    old(heap).copied_bytes(),
                    where_placed(in_place, copied_of_rounds(parts@, n as nat)),
                )
            },
            Err(_) => final(heap)@ == old(heap)@ && final(heap).copied_bytes() == old(heap).copied_bytes(),
        },
{
    let ghost base = heap@;
    let ghost copied0 = heap.copied_bytes();
    let ghost freed = heap.freed();
    let ghost t = total(parts@);
    let cell = match begin(heap, len) {
        Ok(c) => c,
        Err(e) => {
            return Err(e);
        },
    };
    let mut out = Joined { cell, at: 0, carry: 0, run: Vec::new() };
    let mut k: u64 = 0;
    proof {
        nothing_past_the_end(Seq::empty(), 0);
    }
    while k < n
        invariant
            k <= n,
            heap.sound(),
            heap.freed() == freed,
            forall|i: int| 0 <= i < parts@.len() ==> (#[trigger] parts@[i]).is_in(base),
            t == total(parts@),
            len == n * t,
            heap.copied_bytes() == counted(copied0, where_placed(in_place, copied_of_rounds(parts@, k as nat))),
            out.cell == cell,
            out.has_written(base, heap@, len as int, rounds(base, parts@, k as nat)),
        decreases n - k,
    {
        let ghost done = rounds(base, parts@, k as nat);
        let ghost at = k * t;
        let ghost copied1 = heap.copied_bytes();
        let mut i: usize = 0;
        proof {
            rounds_len(base, parts@, k as nat);
            flat_len(base, parts@);
            assert(k * t + t <= n * t) by (nonlinear_arith)
                requires
                    k + 1 <= n,
                    0 <= t,
            ;
            assert(parts@.take(0) =~= Seq::<Bits>::empty());
            assert(done + flat(base, parts@.take(0)) =~= done);
            copied_in_rounds_is_a_count(parts@, k as nat);
        }
        while i < parts.len()
            invariant
                i <= parts@.len(),
                heap.sound(),
                heap.freed() == freed,
                forall|j: int| 0 <= j < parts@.len() ==> (#[trigger] parts@[j]).is_in(base),
                done.len() == at,
                at + total(parts@) <= len,
                heap.copied_bytes() == counted(
                    copied1,
                    where_placed(in_place, copied_of_all(at, parts@.take(i as int))),
                ),
                out.cell == cell,
                out.has_written(base, heap@, len as int, done + flat(base, parts@.take(i as int))),
            decreases parts@.len() - i,
        {
            let ghost now = done + flat(base, parts@.take(i as int));
            proof {
                flat_len(base, parts@.take(i as int));
                one_more_part(base, at, parts@, i as int);
                total_grows(parts@, i + 1);
                copied_is_a_count(at, parts@.take(i as int));
                assert(now + parts@[i as int].of(base) =~= done + flat(base, parts@.take(i + 1)));
            }
            out.add_part(heap, parts[i], in_place, Ghost(base), Ghost(len as int), Ghost(now));
            i += 1;
        }
        assert(parts@.take(i as int) =~= parts@);
        proof {
            copied_is_a_count(at, parts@);
        }
        k += 1;
    }
    let ghost bits = rounds(base, parts@, n as nat);
    proof {
        rounds_len(base, parts@, n as nat);
    }
    out.flush(heap, Ghost(base), Ghost(len as int), Ghost(bits));
    let ghost d1 = heap@[cell.0].data;
    if out.at % 8 != 0 {
        let last: Vec<u8> = vec![out.carry];
        crate::vm::making::write(heap, cell, out.at / 8, &last);
    }
    proof {
        let d = heap@[cell.0].data;
        assert forall|i: int| 0 <= i < (len + 7) / 8 implies #[trigger] owner_byte_at(d, i) == byte_from(bits, 8 * i) by {
            if i < len / 8 {
                assert(owner_byte_at(d1, i) == byte_from(bits, 8 * i));
            }
        }
        assert forall|i: int| (len + 7) / 8 <= i implies #[trigger] owner_byte_at(d, i) == 0 by {
            assert(owner_byte_at(d1, i) == 0);
        }
        assert(heap@ =~= base.insert(cell.0, heap@[cell.0]));
        binary_is_new(base, heap@, cell, bits);
    }
    Ok(cell)
}

/// All of `parts`, one after another, as a new owner: one cell, each of its bytes written
/// once. A part that lands on a byte of the result and starts on a byte of its own owner
/// is copied from cell to cell, where the machine keeps the bytes of an owner in place, and
/// any other goes eight bits at a time. Whether the machine does is its own: [`join_placed`]
/// says what is copied in either case.
pub fn join(heap: &mut Heap, parts: &[Bits]) -> (r: Result<Cell, Full>)
    requires
        old(heap).sound(),
        all_ok(old(heap)@),
        forall|i: int| 0 <= i < parts@.len() ==> (#[trigger] parts@[i]).is_in(old(heap)@),
    ensures
        final(heap).sound(),
        all_ok(final(heap)@),
        final(heap).freed() == old(heap).freed(),
        r is Ok <==> has_room(old(heap)@, total(parts@)),
        match r {
            Ok(c) => {
                &&& is_new_binary(old(heap)@, final(heap)@, c, flat(old(heap)@, parts@))
                &&& final(heap).copied_bytes() == counted(old(heap).copied_bytes(), copied_of_all(0, parts@))
                    || final(heap).copied_bytes() == old(heap).copied_bytes()
            },
            Err(_) => final(heap)@ == old(heap)@ && final(heap).copied_bytes() == old(heap).copied_bytes(),
        },
{
    join_placed(heap, parts, bytes_in_place())
}

/// [`join`] on a machine that keeps the bytes of an owner `in_place`, or not.
pub fn join_placed(heap: &mut Heap, parts: &[Bits], in_place: bool) -> (r: Result<Cell, Full>)
    requires
        old(heap).sound(),
        all_ok(old(heap)@),
        forall|i: int| 0 <= i < parts@.len() ==> (#[trigger] parts@[i]).is_in(old(heap)@),
    ensures
        final(heap).sound(),
        all_ok(final(heap)@),
        final(heap).freed() == old(heap).freed(),
        r is Ok <==> has_room(old(heap)@, total(parts@)),
        match r {
            Ok(c) => {
                &&& is_new_binary(old(heap)@, final(heap)@, c, flat(old(heap)@, parts@))
                &&& final(heap).copied_bytes() == counted(
                    old(heap).copied_bytes(),
                    where_placed(in_place, copied_of_all(0, parts@)),
                )
            },
            Err(_) => final(heap)@ == old(heap)@ && final(heap).copied_bytes() == old(heap).copied_bytes(),
        },
{
    let mut len: u64 = 0;
    let mut i: usize = 0;
    assert(parts@.take(0) =~= Seq::<Bits>::empty());
    while i < parts.len()
        invariant
            i <= parts@.len(),
            len == total(parts@.take(i as int)),
            len <= MAX_BITS,
            *heap == *old(heap),
            heap.sound(),
            all_ok(heap@),
        decreases parts@.len() - i,
    {
        proof {
            one_more_part(Map::empty(), 0, parts@, i as int);
            total_grows(parts@, i + 1);
        }
        if parts[i].len > MAX_BITS - len {
            return Err(Full);
        }
        len = len + parts[i].len;
        i += 1;
    }
    assert(parts@.take(i as int) =~= parts@);
    let ghost base = heap@;
    proof {
        let t = total(parts@);
        assert(1 * t == t) by (nonlinear_arith);
        assert(0 * t == 0) by (nonlinear_arith);
        assert(rounds(base, parts@, 0) =~= Seq::<bool>::empty());
        assert(rounds(base, parts@, 1) =~= flat(base, parts@));
        assert(copied_of_rounds(parts@, 0) == 0);
        assert(copied_of_rounds(parts@, 1) == copied_of_all(0, parts@));
    }
    join_as(heap, len, parts, 1, in_place)
}

/// Some bits, `n` times over.
pub open spec fn repeated(bits: Seq<bool>, n: nat) -> Seq<bool> {
    Seq::new(bits.len() * n, |i: int| bits[i % bits.len() as int])
}

/// Rounds of one part are its bits repeated.
proof fn rounds_of_one(m: Cells, b: Bits, n: nat)
    requires
        b.len > 0,
    ensures
        rounds(m, seq![b], n) == repeated(b.of(m), n),
        total(seq![b]) == b.len,
    decreases n,
{
    let bits = b.of(m);
    let l = bits.len() as int;
    let parts = seq![b];
    assert(parts.drop_last() =~= Seq::<Bits>::empty());
    assert(flat(m, parts.drop_last()) =~= Seq::<bool>::empty());
    assert(flat(m, parts) =~= bits);
    assert(total(parts.drop_last()) == 0);
    if n > 0 {
        let k = (n - 1) as nat;
        rounds_of_one(m, b, k);
        assert(l * k + l == l * n) by (nonlinear_arith)
            requires
                k == n - 1,
        ;
        assert forall|i: int| 0 <= i < l * n implies rounds(m, parts, n)[i] == bits[i % l] by {
            if i >= l * k {
                vstd::arithmetic::div_mod::lemma_fundamental_div_mod_converse(i, l, k as int, i - l * k);
            }
        }
        assert(rounds(m, parts, n) =~= repeated(bits, n));
    } else {
        assert(l * n == 0) by (nonlinear_arith)
            requires
                n == 0,
        ;
        assert(rounds(m, parts, n) =~= repeated(bits, n));
    }
}

/// Some bytes over and over, `n` bytes in all.
fn over_and_over(one: &Vec<u8>, n: usize) -> (out: Vec<u8>)
    requires
        one@.len() > 0,
    ensures
        out@ == Seq::new(n as nat, |i: int| one@[i % one@.len() as int]),
{
    let mut out: Vec<u8> = Vec::new();
    while out.len() < n
        invariant
            one@.len() > 0,
            out@.len() <= n,
            forall|i: int| 0 <= i < out@.len() ==> #[trigger] out@[i] == one@[i % one@.len() as int],
        decreases n - out@.len(),
    {
        let i = out.len() % one.len();
        out.push(one[i]);
    }
    assert(out@ =~= Seq::new(n as nat, |i: int| one@[i % one@.len() as int]));
    out
}

/// Bytes over and over hold bits over and over.
proof fn repeated_bytes(bits: Seq<bool>, n: nat, len: int, out: Seq<u8>)
    requires
        bits.len() > 0,
        bits.len() % 8 == 0,
        len == bits.len() * n,
        out == Seq::new(((len + 7) / 8) as nat, |i: int| to_bytes(bits)[i % to_bytes(bits).len() as int]),
    ensures
        bits_in(out, len) == repeated(bits, n),
{
    let l = bits.len() as int;
    let q = l / 8;
    let one = to_bytes(bits);
    assert(one.len() == q);
    assert forall|i: int| 0 <= i < len implies bits_in(out, len)[i] == bits[i % l] by {
        let a = i / l;
        let r = i % l;
        vstd::arithmetic::div_mod::lemma_fundamental_div_mod(i, l);
        assert(l * a == 8 * (q * a)) by (nonlinear_arith)
            requires
                l == 8 * q,
        ;
        assert(i / 8 == q * a + r / 8 && i % 8 == r % 8);
        vstd::arithmetic::div_mod::lemma_fundamental_div_mod_converse(i / 8, q, a, r / 8);
        let k = r / 8;
        let j = (r % 8) as u8;
        assert(out[i / 8] == one[k]);
        byte_at(bits, k);
        byte_from_has(bits, 8 * k);
        assert(bit_of(byte_from(bits, 8 * k), j) == bit_or_clear(bits, 8 * k + j));
        assert(8 * k + j == r);
    }
    assert(bits_in(out, len) =~= repeated(bits, n));
}

/// `b`, `n` times over, as a new owner. A `b` of whole bytes is written into the cell `n`
/// times; any other is joined, since each copy then starts at another bit. What is copied
/// from cell to cell then is the machine's, as in [`join`]: [`repeat_placed`] says it in
/// either case.
pub fn repeat(heap: &mut Heap, b: Bits, n: u64) -> (r: Result<Cell, Full>)
    requires
        old(heap).sound(),
        all_ok(old(heap)@),
        b.is_in(old(heap)@),
    ensures
        final(heap).sound(),
        all_ok(final(heap)@),
        final(heap).freed() == old(heap).freed(),
        r is Ok <==> has_room(old(heap)@, b.len * n),
        match r {
            Ok(c) => {
                &&& is_new_binary(old(heap)@, final(heap)@, c, repeated(b.of(old(heap)@), n as nat))
                &&& b.len % 8 != 0 && final(heap).copied_bytes() == counted(
                    old(heap).copied_bytes(),
                    copied_of_rounds(seq![b], n as nat),
                ) || final(heap).copied_bytes() == old(heap).copied_bytes()
            },
            Err(_) => final(heap)@ == old(heap)@ && final(heap).copied_bytes() == old(heap).copied_bytes(),
        },
{
    repeat_placed(heap, b, n, bytes_in_place())
}

/// [`repeat`] on a machine that keeps the bytes of an owner `in_place`, or not.
pub fn repeat_placed(heap: &mut Heap, b: Bits, n: u64, in_place: bool) -> (r: Result<Cell, Full>)
    requires
        old(heap).sound(),
        all_ok(old(heap)@),
        b.is_in(old(heap)@),
    ensures
        final(heap).sound(),
        all_ok(final(heap)@),
        final(heap).freed() == old(heap).freed(),
        r is Ok <==> has_room(old(heap)@, b.len * n),
        match r {
            Ok(c) => {
                &&& is_new_binary(old(heap)@, final(heap)@, c, repeated(b.of(old(heap)@), n as nat))
                &&& final(heap).copied_bytes() == counted(
                    old(heap).copied_bytes(),
                    where_placed(in_place && b.len % 8 != 0, copied_of_rounds(seq![b], n as nat)),
                )
            },
            Err(_) => final(heap)@ == old(heap)@ && final(heap).copied_bytes() == old(heap).copied_bytes(),
        },
{
    let ghost base = heap@;
    let ghost bits = b.of(base);
    assert(b.len * n <= 0xFFFF_FFFF_FFFF_FFFF * 0xFFFF_FFFF_FFFF_FFFF) by (nonlinear_arith);
    let product = b.len as u128 * n as u128;
    if product > MAX_BITS as u128 {
        return Err(Full);
    }
    let len = product as u64;
    assert(len == bits.len() * n);
    if len == 0 {
        let none: Vec<u8> = Vec::new();
        proof {
            assert(bits_in(none@, 0) =~= repeated(bits, n as nat));
            if b.len % 8 != 0 {
                assert(n == 0) by (nonlinear_arith)
                    requires
                        b.len > 0,
                        b.len * n == 0,
                ;
            }
        }
        return crate::vm::making::make(heap, &none, 0);
    }
    assert(b.len > 0) by (nonlinear_arith)
        requires
            b.len * n > 0,
    ;
    if b.len % 8 != 0 {
        proof {
            rounds_of_one(base, b, n as nat);
            assert(n * b.len == b.len * n) by (nonlinear_arith);
        }
        let parts = [b];
        assert(parts@ =~= seq![b]);
        return join_as(heap, len, &parts, n, in_place);
    }
    let one = bytes(heap, b);
    let copies = |size: usize| -> (out: Result<Vec<u8>, Full>)
        ensures
            out is Ok && out->Ok_0@ == Seq::new(size as nat, |i: int| one@[i % one@.len() as int]),
        { Ok(over_and_over(&one, size)) };
    let r = fill(heap, len, copies);
    match r {
        Ok(Ok(c)) => {
            proof {
                let out = choose|out: Vec<u8>| #[trigger]
                    copies.ensures((byte_count(len),), Ok(out)) && is_new_binary(base, heap@, c, bits_in(out@, len as int));
                repeated_bytes(bits, n as nat, len as int, out@);
            }
            Ok(c)
        },
        Ok(Err(e)) => Err(e),
        Err(e) => Err(e),
    }
}

/// What is cut in two and joined again is what it was.
pub proof fn joining_takes_back_a_cut(m: Cells, b: Bits, k: u64)
    requires
        k <= b.len,
        b.at + b.len <= u64::MAX,
    ensures
        flat(
            m,
            seq![
                Bits { owner: b.owner, at: b.at, len: k },
                Bits { owner: b.owner, at: (b.at + k) as u64, len: (b.len - k) as u64 },
            ],
        ) == b.of(m),
{
    let first = Bits { owner: b.owner, at: b.at, len: k };
    let second = Bits { owner: b.owner, at: (b.at + k) as u64, len: (b.len - k) as u64 };
    let parts = seq![first, second];
    assert(parts.drop_last() =~= seq![first]);
    assert(seq![first].drop_last() =~= Seq::<Bits>::empty());
    assert(flat(m, seq![first]) =~= first.of(m)) by {
        assert(flat(m, seq![first]) == flat(m, seq![first].drop_last()) + first.of(m));
        assert(flat(m, Seq::<Bits>::empty()) =~= Seq::<bool>::empty());
    }
    assert(flat(m, parts) == flat(m, parts.drop_last()) + second.of(m));
    assert(flat(m, parts) =~= b.of(m));
}

} // verus!
