//! Bits, bytes, words and cells, number by number.
use vstd::prelude::*;

use crate::core_ir::Variant;
use crate::text::decimal;
use crate::vm::binary::{last_bits, shown, shown_bytes, whole, Bits};
use crate::vm::bits::{bit_of, bit_or_clear, bits_in, byte_from, byte_from_has, byte_of, shift_of, to_bytes};
use crate::vm::float::{float_bytes, has_point, is_finite, Endian};
use crate::vm::heap::{all_ok, cell_ok, data_bytes, owner_bit, owner_byte_at, released, shared, CellView, Cells};
use crate::vm::joining::{copied_of, copied_of_all, copied_of_rounds, counted, flat, repeated, rounds, total};
use crate::vm::making::{byte_count, has_room, is_new_binary, is_string, owner_words};
use crate::vm::number::{bits_value, bytes_value, low_bits, uint_at, uint_bits};
use crate::vm::reading::{are_words, bytes_at, is_lowest_first};
use crate::vm::value::{cell_word, word_cell, Cell};

verus! {

/// The bits of a byte are counted from the most significant: bit 0 is worth 128, and bit 7 is
/// worth 1.
pub proof fn the_first_bit_is_the_highest(b: u8)
    ensures
        bit_of(b, 0) <==> b >= 128,
        bit_of(b, 1) <==> (b / 64) % 2 == 1,
        bit_of(b, 2) <==> (b / 32) % 2 == 1,
        bit_of(b, 3) <==> (b / 16) % 2 == 1,
        bit_of(b, 4) <==> (b / 8) % 2 == 1,
        bit_of(b, 5) <==> (b / 4) % 2 == 1,
        bit_of(b, 6) <==> (b / 2) % 2 == 1,
        bit_of(b, 7) <==> b % 2 == 1,
{
    assert({
        &&& (b & (0x80u8 >> 0u8) != 0 <==> b >= 128)
        &&& (b & (0x80u8 >> 1u8) != 0 <==> (b / 64) % 2 == 1)
        &&& (b & (0x80u8 >> 2u8) != 0 <==> (b / 32) % 2 == 1)
        &&& (b & (0x80u8 >> 3u8) != 0 <==> (b / 16) % 2 == 1)
        &&& (b & (0x80u8 >> 4u8) != 0 <==> (b / 8) % 2 == 1)
        &&& (b & (0x80u8 >> 5u8) != 0 <==> (b / 4) % 2 == 1)
        &&& (b & (0x80u8 >> 6u8) != 0 <==> (b / 2) % 2 == 1)
        &&& (b & (0x80u8 >> 7u8) != 0 <==> b % 2 == 1)
    }) by (bit_vector);
}

/// The bytes of a word are counted from the least significant: byte 0 is worth 1, and each byte
/// after it 256 times as much.
pub proof fn the_first_byte_is_the_lowest(w: u64)
    ensures
        byte_of(w, shift_of(0)) == w % 256,
        byte_of(w, shift_of(1)) == (w / 256) % 256,
        byte_of(w, shift_of(2)) == (w / 65536) % 256,
        byte_of(w, shift_of(3)) == (w / 16777216) % 256,
        byte_of(w, shift_of(4)) == (w / 4294967296) % 256,
        byte_of(w, shift_of(5)) == (w / 1099511627776) % 256,
        byte_of(w, shift_of(6)) == (w / 281474976710656) % 256,
        byte_of(w, shift_of(7)) == (w / 72057594037927936) % 256,
{
    assert({
        &&& (w >> 0u64) as u8 == w % 256
        &&& (w >> 8u64) as u8 == (w / 256) % 256
        &&& (w >> 16u64) as u8 == (w / 65536) % 256
        &&& (w >> 24u64) as u8 == (w / 16777216) % 256
        &&& (w >> 32u64) as u8 == (w / 4294967296) % 256
        &&& (w >> 40u64) as u8 == (w / 1099511627776) % 256
        &&& (w >> 48u64) as u8 == (w / 281474976710656) % 256
        &&& (w >> 56u64) as u8 == (w / 72057594037927936) % 256
    }) by (bit_vector);
}

/// The words of a binary are its length and then its bytes, eight to a word: byte `8 * k + i` is
/// byte `i` of word `1 + k`, and bit `p` is bit `p % 8` of byte `p / 8`.
pub proof fn a_binary_follows_its_length(d: Seq<u64>, k: int, i: int, p: int)
    requires
        0 <= k,
        0 <= i < 8,
        1 + k < d.len(),
    ensures
        owner_byte_at(d, 8 * k + i) == byte_of(d[1 + k], shift_of(i)),
        owner_bit(d, p) == bit_of(owner_byte_at(d, p / 8), (p % 8) as u8),
        owner_words(64 * k) == 1 + k,
        owner_words(64 * k + 1) == 2 + k,
{
}

/// There is room for a binary as long as there is a cell for it and its words, with the header,
/// are no more than 2^28.
pub proof fn there_is_room(m: Cells, len: int)
    requires
        0 <= len,
    ensures
        has_room(m, len) <==> 2 + (len + 63) / 64 <= 268435456 && m.dom().len() < 4294967295,
{
}

/// Bits as bytes: eight bits are one byte, the first of them worth 128, and what is missing from the
/// last byte is clear.
pub proof fn eight_bits_are_a_byte(bits: Seq<bool>, k: int, j: u8)
    requires
        0 <= k < to_bytes(bits).len(),
        j < 8,
    ensures
        to_bytes(bits).len() == (bits.len() + 7) / 8,
        8 * k + j < bits.len() ==> bit_of(to_bytes(bits)[k], j) == bits[8 * k + j],
        8 * k + j >= bits.len() ==> !bit_of(to_bytes(bits)[k], j),
{
    byte_from_has(bits, 8 * k);
    assert(bit_of(byte_from(bits, 8 * k), j) == bit_or_clear(bits, 8 * k + j));
}

/// Bytes and bits are worth what they are worth with the most significant first: one more at the
/// end multiplies by 256 or by 2 and adds it.
pub proof fn the_first_is_worth_most(s: Seq<u8>, x: u8, b: Seq<bool>, y: bool)
    ensures
        bytes_value(Seq::<u8>::empty()) == 0,
        bytes_value(s.push(x)) == 256 * bytes_value(s) + x,
        bits_value(Seq::<bool>::empty()) == 0,
        bits_value(b.push(y)) == 2 * bits_value(b) + (if y {
            1int
        } else {
            0
        }),
{
    assert(s.push(x).drop_last() =~= s);
    assert(b.push(y).drop_last() =~= b);
}

/// The bits of a number are those of its value, the most significant first: the last says whether it
/// is odd, and the others are the bits of half of it.
pub proof fn the_last_bit_is_the_lowest(x: int, width: nat)
    requires
        width > 0,
        0 <= x,
    ensures
        uint_bits(x, width).len() == width,
        uint_bits(x, width).last() <==> x % 2 == 1,
        uint_bits(x, width).drop_last() == uint_bits(x / 2, (width - 1) as nat),
        low_bits(x, width) == uint_bits(x % vstd::arithmetic::power2::pow2(width) as int, width),
{
    vstd::arithmetic::power2::lemma2_to64();
    let b = uint_bits(x, width);
    let h = uint_bits(x / 2, (width - 1) as nat);
    assert forall|i: int| 0 <= i < width - 1 implies b.drop_last()[i] == h[i] by {
        let p = vstd::arithmetic::power2::pow2((width - 2 - i) as nat) as int;
        vstd::arithmetic::power2::lemma_pow2_unfold((width - 1 - i) as nat);
        vstd::arithmetic::power2::lemma_pow2_pos((width - 2 - i) as nat);
        vstd::arithmetic::div_mod::lemma_div_denominator(x, 2, p);
    }
    assert(b.drop_last() =~= h);
    assert(b.last() == ((x / vstd::arithmetic::power2::pow2(0) as int) % 2 == 1));
}

/// What is read past the end of some bits is clear.
pub proof fn past_the_end_reads_clear(bits: Seq<bool>, at: int, width: nat)
    requires
        at >= bits.len(),
    ensures
        uint_at(bits, at, width) == 0,
{
    clear_is_nothing(Seq::new(width, |i: int| bit_or_clear(bits, at + i)));
}

proof fn clear_is_nothing(b: Seq<bool>)
    requires
        forall|i: int| 0 <= i < b.len() ==> !(#[trigger] b[i]),
    ensures
        bits_value(b) == 0,
    decreases b.len(),
{
    if b.len() > 0 {
        assert forall|i: int| 0 <= i < b.drop_last().len() implies !(#[trigger] b.drop_last()[i]) by {
            assert(b.drop_last()[i] == b[i]);
        }
        clear_is_nothing(b.drop_last());
    }
}

/// The bytes of a float are worth its bits: the first most in the big order, and least in the little
/// one. Its bits are of a number unless all eight of its exponent are set.
pub proof fn floats_are_four_bytes(bits: u32)
    ensures
        ({
            let (b, l) = (float_bytes(bits, Endian::Big), float_bytes(bits, Endian::Little));
            &&& b.len() == 4 && l.len() == 4
            &&& 16777216 * b[0] + 65536 * b[1] + 256 * b[2] + b[3] == bits
            &&& l[0] + 256 * l[1] + 65536 * l[2] + 16777216 * l[3] == bits
        }),
        is_finite(bits) <==> (bits / 8388608) % 256 != 255,
{
    assert({
        &&& ((bits >> 24u32) as u8) * 16777216 + ((bits >> 16u32) as u8) * 65536 + ((bits >> 8u32) as u8) * 256 + ((bits >> 0u32) as u8) == bits
        &&& (bits & 0x7F80_0000 != 0x7F80_0000 <==> (bits / 8388608) % 256 != 255)
    }) by (bit_vector);
}

/// A text shows that it is a float by a point or an exponent in either case, anywhere.
pub proof fn a_point_or_an_exponent_shows(a: Seq<char>, b: Seq<char>)
    ensures
        has_point(a + seq!['.'] + b),
        has_point(a + seq!['e'] + b),
        has_point(a + seq!['E'] + b),
        !has_point(Seq::<char>::empty()),
        has_point(a + b) <==> has_point(a) || has_point(b),
{
    let s = a + seq!['.'] + b;
    assert(s[a.len() as int] == '.');
    let t = a + seq!['e'] + b;
    assert(t[a.len() as int] == 'e');
    let u = a + seq!['E'] + b;
    assert(u[a.len() as int] == 'E');
    let w = a + b;
    if has_point(a) {
        let i = choose|i: int| 0 <= i < a.len() && (#[trigger] a[i] == '.' || a[i] == 'e' || a[i] == 'E');
        assert(w[i] == a[i]);
    }
    if has_point(b) {
        let i = choose|i: int| 0 <= i < b.len() && (#[trigger] b[i] == '.' || b[i] == 'e' || b[i] == 'E');
        assert(w[a.len() + i] == b[i]);
    }
    if has_point(w) {
        let i = choose|i: int| 0 <= i < w.len() && (#[trigger] w[i] == '.' || w[i] == 'e' || w[i] == 'E');
        if i < a.len() {
            assert(a[i] == w[i]);
        } else {
            assert(b[i - a.len()] == w[i]);
        }
    }
}

/// Bytes show in decimal with a comma between each two: of bytes in two parts, the first, a comma
/// and the second.
pub proof fn bytes_show_in_order(a: Seq<u8>, b: Seq<u8>, x: u8)
    ensures
        shown_bytes(Seq::<u8>::empty()).len() == 0,
        shown_bytes(seq![x]) == decimal(x as nat),
        a.len() > 0 && b.len() > 0 ==> shown_bytes(a + b) == shown_bytes(a) + ", "@ + shown_bytes(b),
    decreases b.len(),
{
    if a.len() > 0 && b.len() > 0 {
        assert((a + b).drop_last() =~= a + b.drop_last());
        assert((a + b).last() == b.last());
        if b.len() == 1 {
            assert(a + b.drop_last() =~= a);
        } else {
            bytes_show_in_order(a, b.drop_last(), x);
            assert(shown_bytes(a + b) =~= shown_bytes(a) + ", "@ + (shown_bytes(b.drop_last()) + ", "@ + decimal(
                b.last() as nat,
            )));
        }
    }
}

/// A binary of whole bytes shows as those bytes in double brackets.
pub proof fn whole_bytes_show_as_themselves(bytes: Seq<u8>)
    ensures
        shown(bits_in(bytes, 8 * bytes.len() as int)) == "<<"@ + shown_bytes(bytes) + ">>"@,
{
    let bits = bits_in(bytes, 8 * bytes.len() as int);
    crate::vm::bits::bits_make_bytes(bytes);
    assert(to_bytes(bits).take(bits.len() as int / 8) =~= bytes);
    assert(shown(bits) =~= "<<"@ + shown_bytes(bytes) + ">>"@);
}

/// The bits that end a binary and are not a whole byte show as a number whose lowest bits they are,
/// the last of them the lowest.
pub proof fn the_last_bits_are_a_number(bits: Seq<bool>, j: u8)
    requires
        bits.len() % 8 != 0,
        j < 8,
    ensures
        ({
            let n = bits.len() % 8;
            &&& j < 8 - n ==> !bit_of(last_bits(bits), j)
            &&& j >= 8 - n ==> bit_of(last_bits(bits), j) == bits[bits.len() - 8 + j]
        }),
{
    let n = bits.len() as int % 8;
    let t = (8 - n) as u8;
    let at = bits.len() - n;
    let v = byte_from(bits, at);
    byte_from_has(bits, at);
    let i = if j >= t {
        (j - t) as u8
    } else {
        0u8
    };
    assert(((v >> t) & (0x80u8 >> j) != 0) == (j >= t && v & (0x80u8 >> i) != 0)) by (bit_vector)
        requires
            0 < t < 8,
            j < 8,
            j >= t ==> i == j - t,
            j < t ==> i == 0,
    ;
    if j >= t {
        assert(bit_of(v, i) == bit_or_clear(bits, at + i));
        assert(at + i == bits.len() - 8 + j);
    }
}

/// A cell's word is its number above a mark, so no two cells have the same word, and a word below the
/// mark or too far above it names none.
pub proof fn cells_have_words_of_their_own(a: Cell, b: Cell, w: u64)
    ensures
        cell_word(a) == 9222246136947933184 + a.0,
        cell_word(a) == cell_word(b) ==> a == b,
        word_cell(w) is None <==> w < 9222246136947933184 || w > 9222246136947933184 + 4294967295,
{
}

/// A reference that is taken and given up leaves everything as it was.
pub proof fn releasing_undoes_sharing(m: Cells, c: u32)
    requires
        m.contains_key(c),
        m[c].refs >= 1,
    ensures
        released(shared(m, c), c) == m,
        shared(m, c)[c].refs == m[c].refs + 1,
        shared(m, c)[c].kind == m[c].kind && shared(m, c)[c].data == m[c].data,
        forall|d: u32| d != c && m.contains_key(d) ==> #[trigger] shared(m, c)[d] == m[d],
        shared(m, c).dom() == m.dom(),
{
    let s = shared(m, c);
    assert(s.dom() =~= m.dom());
    let r = released(s, c);
    assert(r =~= m);
}

/// A cell goes with its last reference and not before, and no other cell changes, but that a slice
/// that goes gives up one reference to the cell that it is of.
pub proof fn a_cell_goes_with_its_last_reference(m: Cells, c: u32, d: u32)
    requires
        all_ok(m),
        m.contains_key(c),
        m.contains_key(d),
    ensures
        m[c].refs > 1 ==> released(m, c).contains_key(c) && released(m, c)[c].refs == m[c].refs - 1 && released(m, c)[c].data
            == m[c].data && released(m, c)[c].kind == m[c].kind,
        m[c].refs > 1 && d != c ==> released(m, c)[d] == m[d],
        m[c].refs == 1 ==> !released(m, c).contains_key(c),
        m[c].refs == 1 && d != c && !(m[c].kind is BinarySlice) ==> released(m, c).contains_key(d) && released(m, c)[d]
            == m[d],
        m[c].refs == 1 && d != c && m[c].kind is BinarySlice ==> {
            let owner = word_cell(m[c].data[0]) == Some(Cell(d));
            &&& !owner ==> released(m, c).contains_key(d) && released(m, c)[d] == m[d]
            &&& owner && m[d].refs > 1 ==> released(m, c).contains_key(d) && released(m, c)[d].refs == m[d].refs - 1
            &&& owner && m[d].refs == 1 ==> !released(m, c).contains_key(d)
        },
{
    assert(cell_ok(m, c));
}

/// Parts are joined in order: of parts in two lists, the bits of the first and then those of the
/// second.
pub proof fn parts_are_joined_in_order(m: Cells, a: Seq<Bits>, b: Seq<Bits>, p: Bits)
    ensures
        flat(m, seq![p]) == p.of(m),
        total(seq![p]) == p.len,
        flat(m, a + b) == flat(m, a) + flat(m, b),
        total(a + b) == total(a) + total(b),
    decreases b.len(),
{
    let none = Seq::<Bits>::empty();
    assert(seq![p].drop_last() =~= none);
    assert(flat(m, none) =~= Seq::<bool>::empty());
    assert(total(none) == 0);
    assert(flat(m, seq![p]) =~= p.of(m));
    if b.len() == 0 {
        assert(a + b =~= a);
        assert(flat(m, a) + flat(m, b) =~= flat(m, a));
    } else {
        parts_are_joined_in_order(m, a, b.drop_last(), p);
        assert((a + b).drop_last() =~= a + b.drop_last());
        assert((a + b).last() == b.last());
        assert(flat(m, a + b) =~= flat(m, a) + flat(m, b));
    }
}

/// Repeating goes through the bits again and again.
pub proof fn repeating_starts_over(bits: Seq<bool>, n: nat, k: int, i: int)
    requires
        0 <= k < n,
        0 <= i < bits.len(),
    ensures
        repeated(bits, n).len() == bits.len() * n,
        0 <= k * bits.len() + i < bits.len() * n,
        repeated(bits, n)[k * bits.len() + i] == bits[i],
        repeated(bits, 0).len() == 0,
        repeated(bits, 1) == bits,
{
    let l = bits.len() as int;
    assert(0 <= k * l && k * l + l <= l * n) by (nonlinear_arith)
        requires
            0 <= k,
            k + 1 <= n,
            0 <= l,
    ;
    vstd::arithmetic::div_mod::lemma_fundamental_div_mod_converse(k * l + i, l, k, i);
    assert forall|j: int| 0 <= j < l implies #[trigger] repeated(bits, 1)[j] == bits[j] by {
        vstd::arithmetic::div_mod::lemma_small_mod(j as nat, l as nat);
    }
    assert(repeated(bits, 1) =~= bits);
    assert(bits.len() * 0 == 0) by (nonlinear_arith);
}

/// A round more is the parts once more, at the end.
pub proof fn rounds_add_up(m: Cells, parts: Seq<Bits>, n: nat)
    ensures
        rounds(m, parts, 0).len() == 0,
        rounds(m, parts, 1) == flat(m, parts),
        rounds(m, parts, n + 1) == rounds(m, parts, n) + flat(m, parts),
{
    reveal_with_fuel(rounds, 3);
    assert(rounds(m, parts, 1) =~= flat(m, parts));
}

/// Parts that start on a byte and are whole bytes are copied whole where they land on a byte; a part
/// that does not start on one, or does not land on one, is not copied so.
pub proof fn whole_bytes_are_copied(at: int, parts: Seq<Bits>, p: Bits)
    requires
        at % 8 == 0,
        forall|i: int| 0 <= i < parts.len() ==> (#[trigger] parts[i]).at % 8 == 0 && parts[i].len % 8 == 0,
    ensures
        8 * copied_of_all(at, parts) == total(parts),
        total(parts) % 8 == 0,
        p.at % 8 != 0 ==> copied_of(at, p) == 0,
        copied_of(at + 1, p) == 0,
        p.at % 8 == 0 ==> copied_of(at, p) == p.len as int / 8,
    decreases parts.len(),
{
    if parts.len() > 0 {
        let rest = parts.drop_last();
        assert forall|i: int| 0 <= i < rest.len() implies (#[trigger] rest[i]).at % 8 == 0 && rest[i].len % 8 == 0 by {
            assert(rest[i] == parts[i]);
        }
        whole_bytes_are_copied(at, rest, p);
        let last = parts[parts.len() - 1];
        assert(last.at % 8 == 0 && last.len % 8 == 0);
    }
}

/// A count stops at the largest number and never falls.
pub proof fn counts_do_not_wrap(count: u64, n: int)
    requires
        0 <= n,
    ensures
        counted(count, n) >= count,
        count + n <= 18446744073709551615 ==> counted(count, n) == count + n,
        count + n > 18446744073709551615 ==> counted(count, n) == 18446744073709551615,
{
}

/// The words of a value with one field are its type, its tag and the field.
pub proof fn a_field_follows_its_constructor(v: Variant, field: u64)
    requires
        v.type_id.0 >= 0,
    ensures
        crate::vm::metal::with_field(v, field) == seq![v.type_id.0 as u64, v.tag as u64, field],
{
    let t = v.type_id.0;
    assert(t >= 0 ==> (t as u32 as u64) == t) by (bit_vector);
}

/// So many bits take just the bytes that hold them, and a string just the words.
pub proof fn bits_take_just_their_bytes(len: u64, c: CellView, bytes: Seq<u8>)
    requires
        len <= u64::MAX - 7,
    ensures
        (len + 7) / 8 <= usize::MAX ==> len <= 8 * byte_count(len) < len + 8,
        is_string(c, bytes) ==> {
            &&& c.data[0] == bytes.len()
            &&& bytes.len() <= 8 * (c.data.len() - 1) < bytes.len() + 8
        },
{
}

/// A string's bytes follow its length in order, the first the lowest of its word.
pub proof fn a_string_follows_its_length(c: CellView, bytes: Seq<u8>, i: int)
    requires
        is_string(c, bytes),
        0 <= i < bytes.len(),
    ensures
        bytes[i] == byte_of(c.data[1 + i / 8], (8 * (i % 8)) as u64),
{
    assert(bytes[i] == data_bytes(c.data, 8, bytes.len() as int)[i]);
    assert((8 + i) / 8 == 1 + i / 8 && (8 + i) % 8 == i % 8);
}

/// The bytes from a bit on are the whole ones: eight bits each, and fewer than eight are left over.
pub proof fn whole_bytes_from_a_bit(bits: Seq<bool>, at: int, k: int, j: u8)
    requires
        0 <= at <= bits.len(),
    ensures
        8 * bytes_at(bits, at).len() <= bits.len() - at < 8 * bytes_at(bits, at).len() + 8,
        0 <= k < bytes_at(bits, at).len() && j < 8 ==> bit_of(bytes_at(bits, at)[k], j) == bits[at + 8 * k + j],
{
    byte_from_has(bits, at + 8 * k);
}

/// A one in memory tells the order of bytes: with the lowest first its first byte is 1, with the
/// highest first its last, and all the others are 0.
pub proof fn a_one_tells_the_order(one: Seq<u8>)
    ensures
        are_words(seq![1u64], one, true) <==> one == seq![1u8, 0, 0, 0, 0, 0, 0, 0],
        are_words(seq![1u64], one, false) <==> one == seq![0u8, 0, 0, 0, 0, 0, 0, 1],
        is_lowest_first(one) <==> one == seq![1u8, 0, 0, 0, 0, 0, 0, 0],
{
    assert({
        &&& (1u64 >> 0u64) as u8 == 1
        &&& (1u64 >> 8u64) as u8 == 0
        &&& (1u64 >> 16u64) as u8 == 0
        &&& (1u64 >> 24u64) as u8 == 0
        &&& (1u64 >> 32u64) as u8 == 0
        &&& (1u64 >> 40u64) as u8 == 0
        &&& (1u64 >> 48u64) as u8 == 0
        &&& (1u64 >> 56u64) as u8 == 0
    }) by (bit_vector);
    let w = seq![1u64];
    if are_words(w, one, true) {
        assert(one =~= seq![1u8, 0, 0, 0, 0, 0, 0, 0]);
    }
    if are_words(w, one, false) {
        assert(one =~= seq![0u8, 0, 0, 0, 0, 0, 0, 1]);
    }
}

/// What is copied of some parts is counted from the first on: that of the first where it lands, and
/// that of the others behind it.
pub proof fn copies_are_counted_from_the_first(at: int, p: Bits, parts: Seq<Bits>)
    ensures
        copied_of_all(at, Seq::empty()) == 0,
        copied_of_all(at, seq![p] + parts) == copied_of(at, p) + copied_of_all(at + p.len, parts),
        total(seq![p] + parts) == p.len + total(parts),
    decreases parts.len(),
{
    let all = seq![p] + parts;
    if parts.len() == 0 {
        assert(all.drop_last() =~= Seq::<Bits>::empty());
        assert(all.last() == p);
        assert(total(Seq::<Bits>::empty()) == 0);
    } else {
        copies_are_counted_from_the_first(at, p, parts.drop_last());
        assert(all.drop_last() =~= seq![p] + parts.drop_last());
        assert(all.last() == parts.last());
    }
}

/// Rounds of whole bytes are copied whole.
pub proof fn whole_rounds_are_copied(parts: Seq<Bits>, n: nat)
    requires
        forall|i: int| 0 <= i < parts.len() ==> (#[trigger] parts[i]).at % 8 == 0 && parts[i].len % 8 == 0,
    ensures
        8 * copied_of_rounds(parts, n) == n * total(parts),
    decreases n,
{
    let t = total(parts);
    if n > 0 {
        let m = (n - 1) as nat;
        whole_rounds_are_copied(parts, m);
        whole_bytes_are_copied(0, parts, Bits { owner: Cell(0), at: 0, len: 0 });
        let e = t / 8;
        assert(m * t == 8 * (m * e)) by (nonlinear_arith)
            requires
                t == 8 * e,
        ;
        whole_bytes_are_copied(m * t, parts, Bits { owner: Cell(0), at: 0, len: 0 });
        assert(n * t == m * t + t) by (nonlinear_arith)
            requires
                n == m + 1,
        ;
    } else {
        assert(n * t == 0) by (nonlinear_arith)
            requires
                n == 0,
        ;
    }
}

/// A new binary has one owner: given up once, it leaves the cells as they were before it.
pub proof fn a_new_binary_is_given_up_once(before: Cells, after: Cells, c: Cell, bits: Seq<bool>)
    requires
        is_new_binary(before, after, c, bits),
    ensures
        released(after, c.0) == before,
{
    assert(released(after, c.0) =~= before);
}

/// All of a binary is from its first bit on, and as long as its length says.
pub proof fn all_of_a_binary_is_from_its_first_bit(m: Cells, c: Cell, i: int)
    requires
        0 <= i < m[c.0].data[0],
    ensures
        whole(m, c).of(m).len() == m[c.0].data[0],
        whole(m, c).of(m)[i] == owner_bit(m[c.0].data, i),
{
}

} // verus!
