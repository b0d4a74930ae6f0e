use scarlet::vm::binary::{
    bits, byte, byte_range, bytes, bytes_are, bytes_from, equal, has_at, text, whole_byte, whole_bytes, word, Bits, MAX_BITS,
    MAX_BYTES,
};
use scarlet::vm::float::{f32_bytes, read_f32, Endian};
use scarlet::vm::heap::{Full, Heap, Kind, MAX_CELL_WORDS};
use scarlet::vm::joining::{join, join_placed, repeat, repeat_placed};
use scarlet::vm::making::{fill, make, slice, string};
use scarlet::vm::number::{from_int, read_uint, Int};
use scarlet::vm::reading::{byte_view, bytes_in_place, lowest_first, placed, read_utf8, ByteView};

fn owner(heap: &mut Heap, list: &[u8], len: u64) -> Bits {
    let cell = make(heap, list, len).expect("room");
    bits(heap, cell).expect("a binary")
}

fn cut(heap: &mut Heap, b: Bits, from: u64, len: u64) -> Bits {
    let cell = slice(heap, b, from, len).expect("room");
    bits(heap, cell).expect("a slice")
}

fn num(n: i128) -> Int {
    let mut magnitude: Vec<u8> = n.unsigned_abs().to_be_bytes().to_vec();
    while magnitude.len() > 1 && magnitude[0] == 0 {
        magnitude.remove(0);
    }
    Int { negative: n < 0, magnitude }
}

fn shown(n: &Int) -> (bool, Vec<u8>) {
    (n.negative, n.magnitude.clone())
}

#[test]
fn a_binary_shows_its_bytes_and_a_partial_last_one() {
    let mut heap = Heap::default();
    let b = owner(&mut heap, &[1, 2, 3], 24);
    assert_eq!(text(&heap, b), "<<1, 2, 3>>");
    let b = owner(&mut heap, &[0xFF, 0b1011_1111], 11);
    assert_eq!(text(&heap, b), "<<255, 5:size(3)>>");
    let b = owner(&mut heap, &[], 0);
    assert_eq!(text(&heap, b), "<<>>");
}

#[test]
fn from_int_writes_the_low_bits_most_significant_first() {
    assert_eq!(from_int(&num(1), 4), vec![0b0001_0000]);
    assert_eq!(from_int(&num(65), 8), vec![65]);
    assert_eq!(from_int(&num(0x1234), 16), vec![0x12, 0x34]);
    assert_eq!(from_int(&num(0x1FF), 8), vec![0xFF]);
    assert_eq!(from_int(&num(-1), 12), vec![0xFF, 0xF0]);
    assert_eq!(from_int(&num(7), 0), Vec::<u8>::new());
    let wide = from_int(&num(1 << 100), 104);
    assert_eq!(wide.len(), 13);
    assert_eq!(wide[0], 0x10);
}

#[test]
fn a_negative_number_is_its_twos_complement() {
    assert_eq!(from_int(&num(-2), 8), vec![0xFE]);
    assert_eq!(from_int(&num(-256), 8), vec![0]);
    assert_eq!(from_int(&num(-257), 16), vec![0xFE, 0xFF]);
    assert_eq!(from_int(&num(-1), 1), vec![0x80]);
    assert_eq!(from_int(&num(0), 9), vec![0, 0]);
}

/// A slice of a slice reads the right bits of the owner, at any offset.
#[test]
fn slices_read_through_to_the_owner() {
    let mut heap = Heap::default();
    let b = owner(&mut heap, &[0b1010_1100, 0b0011_0101, 0xFF], 24);
    let s1 = cut(&mut heap, b, 3, 17);
    let s2 = cut(&mut heap, s1, 2, 9);
    // Bits 5..14 of the owner: 1 0 0 0 0 1 1 0 1.
    assert_eq!(bytes(&heap, s2), vec![0b1000_0110, 0b1000_0000]);
    assert_eq!(shown(&read_uint(&heap, s2, 0, 9)), shown(&num(0b1_0000_1101)));
    assert_eq!(shown(&read_uint(&heap, s2, 5, 8)), shown(&num(0b1101_0000)));
    let want = owner(&mut heap, &[0b1000_0110, 0b1000_0000], 9);
    assert!(equal(&heap, s2, want));
}

#[test]
fn numbers_are_read_at_any_bit_and_past_the_end() {
    let mut heap = Heap::default();
    let b = owner(&mut heap, &[0x12, 0x34, 0x56], 24);
    assert_eq!(shown(&read_uint(&heap, b, 0, 24)), shown(&num(0x123456)));
    assert_eq!(shown(&read_uint(&heap, b, 4, 8)), shown(&num(0x23)));
    assert_eq!(shown(&read_uint(&heap, b, 16, 16)), shown(&num(0x5600)));
    assert_eq!(shown(&read_uint(&heap, b, 100, 8)), shown(&num(0)));
    assert_eq!(shown(&read_uint(&heap, b, 0, 0)), shown(&num(0)));
}

#[test]
fn join_packs_at_any_bit() {
    let mut heap = Heap::default();
    let a = owner(&mut heap, &[0b1010_0000], 3);
    let b = owner(&mut heap, &[0xFF, 0b1000_0000], 9);
    let j = join(&mut heap, &[a, b, a]).expect("room");
    let j = bits(&heap, j).expect("a binary");
    assert_eq!(j.len, 15);
    // 101, then nine 1s, then 101.
    assert_eq!(bytes(&heap, j), vec![0b1011_1111, 0b1111_1010]);
}

/// A small, seeded generator, so a failure names the case that made it.
struct Rng(u64);

impl Rng {
    fn next(&mut self) -> u64 {
        // xorshift64*
        self.0 ^= self.0 >> 12;
        self.0 ^= self.0 << 25;
        self.0 ^= self.0 >> 27;
        self.0.wrapping_mul(0x2545_F491_4F6C_DD1D)
    }

    fn below(&mut self, n: u64) -> u64 {
        self.next() % n
    }
}

/// Every part eight bits at a time, each bit set on its own.
fn join_bit_by_bit(heap: &Heap, parts: &[Bits]) -> (Vec<u8>, u64) {
    let len: u64 = parts.iter().map(|p| p.len).sum();
    let mut out = vec![0u8; len.div_ceil(8) as usize];
    let mut at = 0u64;
    for p in parts {
        for k in 0..p.len.div_ceil(8) {
            let chunk = byte(heap, *p, k * 8);
            for j in 0..(p.len - k * 8).min(8) {
                if chunk & (0x80 >> j) != 0 {
                    let q = at + k * 8 + j;
                    out[(q / 8) as usize] |= 0x80 >> (q % 8);
                }
            }
        }
        at += p.len;
    }
    (out, len)
}

/// Random parts of every shape a join meets: owners whole or ending mid-byte, empty ones, and
/// slices starting on a byte and off one. The result is the same bits the bit-by-bit join
/// gives, in a cell that may have been another binary's.
#[test]
fn join_gives_the_bits_the_bit_by_bit_join_did() {
    let mut rng = Rng(0x5CA7_1E7B_1A71_0001);
    let mut heap = Heap::default();
    for round in 0..2_000 {
        let mut parts = Vec::new();
        let mut held = Vec::new();
        for _ in 0..rng.below(12) {
            let len = match rng.below(4) {
                0 => rng.below(8),
                1 => rng.below(40) * 8,
                _ => rng.below(300),
            };
            let list: Vec<u8> = (0..len.div_ceil(8)).map(|_| rng.next() as u8).collect();
            let cell = make(&mut heap, &list, len).expect("room");
            held.push(cell);
            let b = bits(&heap, cell).expect("a binary");
            let p = if len > 0 && rng.below(2) == 0 {
                let from = rng.below(len);
                let take = rng.below(len - from + 1);
                let cell = slice(&mut heap, b, from, take).expect("room");
                held.push(cell);
                bits(&heap, cell).expect("a slice")
            } else {
                b
            };
            parts.push(p);
        }
        let (want, len) = join_bit_by_bit(&heap, &parts);
        let joined = join(&mut heap, &parts).expect("room");
        let got = bits(&heap, joined).expect("a binary");
        assert_eq!(got.len, len, "round {round}");
        assert_eq!(bytes(&heap, got), want, "round {round}");
        // Every bit past the end reads as zero, in every word the cell has.
        let all: Vec<u8> = heap.data(joined)[1..].iter().flat_map(|w| w.to_le_bytes()).collect();
        assert!(all[want.len()..].iter().all(|&b| b == 0), "round {round}");
        // Dirty the cells a later round's join will reuse. A slice goes before its owner.
        held.push(joined);
        for cell in held.into_iter().rev() {
            heap.release(cell);
        }
    }
    assert_eq!(heap.live(), 0);
}

/// Parts that each land on a byte and start on one are copied cell to cell, every byte once;
/// a part off a byte is not, and the parts after it no longer land on a byte.
#[test]
fn a_join_on_whole_bytes_copies_each_byte_once() {
    let mut heap = Heap::default();
    let data: Vec<u8> = (0..=255).collect();
    let part = owner(&mut heap, &data, 256 * 8);
    let parts = vec![part; 1_000];
    let before = heap.copied();
    let joined = join(&mut heap, &parts).expect("room");
    let joined = bits(&heap, joined).expect("a binary");
    let expected = if bytes_in_place() { 256_000 } else { 0 };
    assert_eq!(heap.copied() - before, expected);
    assert_eq!(bytes(&heap, joined), data.repeat(1_000));

    let odd = owner(&mut heap, &[0b1010_0000], 3);
    let before = heap.copied();
    let joined = join(&mut heap, &[part, odd, part]).expect("room");
    let joined = bits(&heap, joined).expect("a binary");
    let expected = if bytes_in_place() { 256 } else { 0 };
    assert_eq!(heap.copied() - before, expected);
    assert_eq!(joined.len, 256 * 8 * 2 + 3);
}

/// A part off a byte longer than the bytes held before writing them goes to the cell in
/// several runs, each where it belongs.
#[test]
fn a_long_join_off_a_byte_writes_every_run_in_place() {
    let mut heap = Heap::default();
    let data: Vec<u8> = (0..10_000u32).map(|i| (i * 7 + i / 256) as u8).collect();
    let long = owner(&mut heap, &data, 10_000 * 8);
    let odd = owner(&mut heap, &[0b1010_0000], 3);
    let off = cut(&mut heap, long, 5, 9_000 * 8);
    let parts = [odd, long, odd, off, long];
    let (want, len) = join_bit_by_bit(&heap, &parts);
    let joined = join(&mut heap, &parts).expect("room");
    let got = bits(&heap, joined).expect("a binary");
    assert_eq!(got.len, len);
    assert_eq!(bytes(&heap, got), want);
}

#[test]
fn repeat_gives_n_copies_of_bytes_or_bits() {
    let mut heap = Heap::default();
    let b = owner(&mut heap, &[1, 2], 16);
    for (n, want) in [(0, "<<>>"), (1, "<<1, 2>>"), (3, "<<1, 2, 1, 2, 1, 2>>")] {
        let r = repeat(&mut heap, b, n).expect("room");
        assert_eq!(text(&heap, bits(&heap, r).expect("a binary")), want);
    }
    // 101 three times: 1011 0110 1.
    let b = owner(&mut heap, &[0b1010_0000], 3);
    let r = repeat(&mut heap, b, 3).expect("room");
    assert_eq!(text(&heap, bits(&heap, r).expect("a binary")), "<<182, 1:size(1)>>");
    let empty = owner(&mut heap, &[], 0);
    let r = repeat(&mut heap, empty, u64::MAX).expect("room");
    assert_eq!(bits(&heap, r).expect("a binary").len, 0);
    assert_eq!(repeat(&mut heap, b, u64::MAX), Err(Full));
    assert_eq!(repeat(&mut heap, b, MAX_BITS / 3 + 1), Err(Full));
}

/// Every class of finite float — zeros of both signs, subnormals, normals up to the largest —
/// is the same after being written and read in either byte order.
#[test]
fn every_finite_f32_packs_and_unpacks_as_itself() {
    let mut rng = Rng(0xF10A_7320_0000_0003);
    let classes = [0.0, f32::from_bits(1), f32::from_bits(0x007F_FFFF), f32::MIN_POSITIVE, 1.0, f32::MAX];
    let signed = classes.into_iter().flat_map(|x| [x, -x]);
    let random = (0..1_000_000).map(|_| f32::from_bits(rng.next() as u32)).filter(|x| x.is_finite());
    for x in signed.chain(random) {
        for endian in [Endian::Big, Endian::Little] {
            let back = read_f32(f32_bytes(x.to_bits(), endian), endian).expect("finite");
            assert_eq!(back, x.to_bits(), "{x:e} {endian:?}");
        }
    }
    assert_eq!(f32_bytes(1.0f32.to_bits(), Endian::Little), [0, 0, 128, 63]);
    assert_eq!(f32_bytes(1.0f32.to_bits(), Endian::Big), [63, 128, 0, 0]);
}

/// Four bytes that spell an infinity or a NaN, of any sign or payload, are no float a program
/// can hold.
#[test]
fn an_infinity_or_a_nan_reads_as_none() {
    let not_finite = [
        0x7F80_0000u32,
        0xFF80_0000,
        0x7FC0_0000,
        0xFFC0_0000,
        0x7F80_0001,
        0x7FBF_FFFF,
        0x7FFF_FFFF,
        0xFFFF_FFFF,
    ];
    for b in not_finite {
        for endian in [Endian::Big, Endian::Little] {
            let list = match endian {
                Endian::Big => b.to_be_bytes(),
                Endian::Little => b.to_le_bytes(),
            };
            assert_eq!(read_f32(list, endian), None, "{b:#x} {endian:?}");
        }
    }
}

#[test]
fn utf8_reads_one_code_point_or_none() {
    let mut heap = Heap::default();
    let b = owner(&mut heap, "é!".as_bytes(), 24);
    assert_eq!(read_utf8(&heap, b, 0), Some(('é' as u32, 16)));
    assert_eq!(read_utf8(&heap, b, 16), Some(('!' as u32, 8)));
    assert_eq!(read_utf8(&heap, b, 8), None);
    assert_eq!(read_utf8(&heap, b, 24), None);
}

#[test]
fn utf8_takes_every_code_point_and_refuses_what_is_none() {
    let mut heap = Heap::default();
    for c in ['a', '\u{7F}', '\u{80}', '\u{7FF}', '\u{800}', '\u{FFFF}', '\u{10000}', '\u{10FFFF}'] {
        let mut buf = [0u8; 4];
        let s = c.encode_utf8(&mut buf).as_bytes().to_vec();
        let b = owner(&mut heap, &s, s.len() as u64 * 8);
        assert_eq!(read_utf8(&heap, b, 0), Some((c as u32, s.len() as u64 * 8)), "{c:?}");
    }
    // Too long a form, a surrogate, past the last code point, cut short, and a byte that leads none.
    for bad in [vec![0xC0, 0x80], vec![0xE0, 0x80, 0x80], vec![0xED, 0xA0, 0x80], vec![0xF4, 0x90, 0x80, 0x80], vec![
        0xF0, 0x9F, 0x92,
    ], vec![0xFF], vec![0xE2, 0x28, 0xA1]] {
        let b = owner(&mut heap, &bad, bad.len() as u64 * 8);
        assert_eq!(read_utf8(&heap, b, 0), None, "{bad:?}");
    }
    // Off a byte.
    let b = owner(&mut heap, &[0b0000_1100, 0b0011_1010, 0b1001_0000], 20);
    assert_eq!(read_utf8(&heap, b, 4), Some(('é' as u32, 16)));
}

/// A binary made whole, and a slice of one at a byte, are read in place on a little-endian
/// host: what goes to a file or a GPU is not copied on the way. Anything else is a copy of the
/// same bytes.
#[test]
fn whole_bytes_on_a_byte_are_read_in_place() {
    let mut heap = Heap::default();
    let data: Vec<u8> = (0..20).collect();
    let b = owner(&mut heap, &data, 160);
    let at_a_byte = cut(&mut heap, b, 24, 80);
    let at_a_bit = cut(&mut heap, b, 3, 80);
    let part = owner(&mut heap, &data, 157);
    let little = 1u16.to_ne_bytes() == [1, 0];
    for (b, in_place) in [(b, little), (at_a_byte, little), (at_a_bit, false), (part, false)] {
        let view = byte_view(&heap, b);
        assert_eq!(matches!(view, ByteView::Borrowed(_)), in_place, "{}", text(&heap, b));
        assert_eq!(view.as_slice(), &bytes(&heap, b)[..], "{}", text(&heap, b));
        assert_eq!(view.len(), bytes(&heap, b).len());
    }
    assert_eq!(byte_view(&heap, at_a_byte).as_slice(), &data[3..13]);
}

/// A cell a binary reuses may hold another's bytes. A new one reads as its own bytes and zeros
/// after, however long, in every word.
#[test]
fn a_binary_in_a_reused_cell_holds_only_its_own_bytes() {
    let mut heap = Heap::default();
    for n in 1..=24u8 {
        let dirty = make(&mut heap, &[0xFF; 24], 24 * 8).expect("room");
        let words = heap.data(dirty).len();
        heap.release(dirty);
        let data: Vec<u8> = (1..=n).collect();
        let cell = make(&mut heap, &data, u64::from(n) * 8).expect("room");
        let b = bits(&heap, cell).expect("a binary");
        assert_eq!(bytes(&heap, b), data);
        let d = heap.data(cell);
        let want: Vec<u8> =
            data.iter().copied().chain(std::iter::repeat(0)).take((d.len() - 1) * 8).collect();
        let got: Vec<u8> = d[1..].iter().flat_map(|w| w.to_le_bytes()).collect();
        assert_eq!(got, want, "{n} bytes, in a cell of {} words once {words}", d.len());
        heap.release(cell);
    }
    assert_eq!(heap.live(), 0);
}

/// A fill that fails frees the cell it was writing, and gives the error.
#[test]
fn a_failed_fill_frees_its_cell() {
    let mut heap = Heap::default();
    let made = fill(&mut heap, 64, |n| {
        assert_eq!(n, 8);
        Err::<Vec<u8>, &str>("refused")
    });
    assert_eq!(made.expect("room").err(), Some("refused"));
    assert_eq!(heap.live(), 0);
    let made = fill(&mut heap, 12, |n| {
        assert_eq!(n, 2);
        Ok::<Vec<u8>, &str>(vec![0xAB, 0xFF])
    });
    let cell = made.expect("room").expect("filled");
    let b = bits(&heap, cell).expect("a binary");
    assert_eq!(text(&heap, b), "<<171, 15:size(4)>>");
}

#[test]
fn reading_parts_of_a_binary() {
    let mut heap = Heap::default();
    let data: Vec<u8> = (0..20).collect();
    let b = owner(&mut heap, &data, 160);
    assert_eq!(word(&heap, b, 0), Some(0x0706_0504_0302_0100));
    assert_eq!(word(&heap, b, 1), Some(0x0F0E_0D0C_0B0A_0908));
    assert_eq!(word(&heap, b, 2), None);
    assert_eq!(word(&heap, b, u64::MAX), None);
    let off = cut(&mut heap, b, 8, 152);
    assert_eq!(word(&heap, off, 0), Some(0x0807_0605_0403_0201));
    assert_eq!(byte_range(&heap, b, 3, 4), Some(vec![3, 4, 5, 6]));
    assert_eq!(byte_range(&heap, b, 19, 2), None);
    assert_eq!(bytes_from(&heap, b, 18, 10), vec![18, 19]);
    assert_eq!(bytes_from(&heap, b, 30, 10), Vec::<u8>::new());
    assert!(bytes_are(&heap, b, 5, &[5, 6, 7]));
    assert!(!bytes_are(&heap, b, 5, &[5, 6, 8]));
    assert!(!bytes_are(&heap, b, 19, &[19, 20]));
    let part = owner(&mut heap, &[1, 2, 0xFF], 19);
    assert_eq!(whole_bytes(&heap, part), vec![1, 2]);
    assert_eq!(whole_byte(&heap, part, 1), Some(2));
    assert_eq!(whole_byte(&heap, part, 2), None);
    let prefix = owner(&mut heap, &[5, 6], 16);
    assert!(has_at(&heap, b, 40, prefix));
    assert!(!has_at(&heap, b, 41, prefix));
    assert!(!has_at(&heap, b, 152, prefix));
    assert!(!has_at(&heap, b, u64::MAX, prefix));
}

#[test]
fn what_is_no_binary_has_no_bits() {
    let mut heap = Heap::default();
    let s = string(&mut heap, b"hello").expect("room");
    assert!(bits(&heap, s).is_none());
    assert_eq!(heap.kind(s), Some(Kind::String));
    assert_eq!(heap.data(s)[0], 5);
    assert_eq!(heap.data(s)[1].to_le_bytes()[..5], *b"hello");
    heap.release(s);
    assert_eq!(heap.kind(s), None);
    assert!(bits(&heap, s).is_none());
}

#[test]
fn a_binary_too_long_for_a_cell_is_a_full_heap() {
    let mut heap = Heap::default();
    assert_eq!(make(&mut heap, &[], u64::MAX), Err(Full));
    assert_eq!(make(&mut heap, &[], MAX_BITS), Err(Full));
    assert_eq!(MAX_BYTES, (MAX_CELL_WORDS - 2) * 8);
    assert_eq!(heap.live(), 0);
}

#[test]
fn a_slice_keeps_its_owner() {
    let mut heap = Heap::default();
    let cell = make(&mut heap, &[1, 2, 3], 24).expect("room");
    let b = bits(&heap, cell).expect("a binary");
    let part = slice(&mut heap, b, 8, 8).expect("room");
    heap.release(cell);
    assert_eq!(heap.live(), 2);
    assert_eq!(text(&heap, bits(&heap, part).expect("a slice")), "<<2>>");
    heap.release(part);
    assert_eq!(heap.live(), 0);
}

#[test]
fn what_is_written_reads_back() {
    let mut heap = Heap::default();
    for (n, width, back) in [(0x1234, 16, 0x1234), (-1, 12, 0xFFF), (0x1FF, 8, 0xFF), (5, 3, 5), (1 << 90, 100, 1 << 90)] {
        let list = from_int(&num(n), width);
        let b = owner(&mut heap, &list, width);
        assert_eq!(shown(&read_uint(&heap, b, 0, width)), shown(&num(back)), "{n} in {width} bits");
    }
}

#[test]
fn cutting_and_joining_take_each_other_back() {
    let mut heap = Heap::default();
    let b = owner(&mut heap, &[0xDE, 0xAD, 0xBE, 0xEF], 30);
    for k in [0, 1, 7, 8, 13, 30] {
        let (first, second) = (cut(&mut heap, b, 0, k), cut(&mut heap, b, k, 30 - k));
        let whole = join(&mut heap, &[first, second]).expect("room");
        let whole = bits(&heap, whole).expect("a binary");
        assert!(equal(&heap, whole, b), "cut at {k}");
    }
    let outer = cut(&mut heap, b, 3, 20);
    let inner = cut(&mut heap, outer, 5, 9);
    let direct = cut(&mut heap, b, 8, 9);
    assert!(equal(&heap, inner, direct));
    // A slice of a slice names the owner.
    assert_eq!((inner.owner, inner.at), (b.owner, 8));
}

#[test]
fn the_order_of_bytes_in_a_word_decides_what_is_in_place() {
    let mut heap = Heap::default();
    let data: Vec<u8> = (0..20).collect();
    let b = owner(&mut heap, &data, 160);
    let at_a_byte = cut(&mut heap, b, 24, 80);
    let at_a_bit = cut(&mut heap, b, 3, 80);
    let part = cut(&mut heap, b, 8, 81);
    let none = cut(&mut heap, b, 160, 0);
    let words: Vec<u64> = heap.data(b.owner)[1..].to_vec();
    let lowest: Vec<u8> = words.iter().flat_map(|w| w.to_le_bytes()).collect();
    let highest: Vec<u8> = words.iter().flat_map(|w| w.to_be_bytes()).collect();
    let (one_lowest, one_highest) = (1u64.to_le_bytes(), 1u64.to_be_bytes());
    assert_eq!(placed(&heap, b, &lowest, &one_lowest), Some(&data[..]));
    assert_eq!(placed(&heap, at_a_byte, &lowest, &one_lowest), Some(&data[3..13]));
    assert_eq!(placed(&heap, none, &lowest, &one_lowest), Some(&data[20..]));
    assert_eq!(placed(&heap, at_a_bit, &lowest, &one_lowest), None);
    assert_eq!(placed(&heap, part, &lowest, &one_lowest), None);
    for x in [b, at_a_byte, at_a_bit, part, none] {
        assert_eq!(placed(&heap, x, &highest, &one_highest), None);
    }
}

#[test]
fn the_order_of_bytes_shows_in_a_one() {
    assert!(lowest_first(&[1, 0, 0, 0, 0, 0, 0, 0]));
    assert!(!lowest_first(&[0, 0, 0, 0, 0, 0, 0, 1]));
}

/// Where bytes do not lie in place, none is copied from cell to cell, and the bits are the same.
#[test]
fn a_join_off_place_copies_nothing_cell_to_cell() {
    for (in_place, of_join, of_repeat) in [(true, 33, 1), (false, 0, 0)] {
        let mut heap = Heap::default();
        let data: Vec<u8> = (0..33).collect();
        let part = owner(&mut heap, &data, 33 * 8);
        let joined = join_placed(&mut heap, &[part], in_place).expect("room");
        let joined = bits(&heap, joined).expect("a binary");
        assert_eq!(bytes(&heap, joined), data);
        assert_eq!(heap.copied(), of_join);
        let odd = owner(&mut heap, &[0xAB, 0b1010_0000], 12);
        let twice = repeat_placed(&mut heap, odd, 2, in_place).expect("room");
        let twice = bits(&heap, twice).expect("a binary");
        assert_eq!(bytes(&heap, twice), vec![0xAB, 0xAA, 0xBA]);
        assert_eq!(heap.copied(), of_join + of_repeat);
        repeat_placed(&mut heap, part, 2, in_place).expect("room");
        assert_eq!(heap.copied(), of_join + of_repeat);
    }
}
