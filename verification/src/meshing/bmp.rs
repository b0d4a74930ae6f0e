//! BMP images: 24 bits a pixel, the bottom row first.
use vstd::prelude::*;

verus! {

/// A number as four bytes, the lowest first.
pub open spec fn le32(v: u32) -> Seq<u8> {
    seq![(v % 256) as u8, ((v / 256) % 256) as u8, ((v / 65536) % 256) as u8, (v / 16777216) as u8]
}

fn push_le32(out: &mut Vec<u8>, v: u32)
    ensures
        final(out)@ == old(out)@ + le32(v),
{
    out.push((v % 256) as u8);
    out.push(((v / 256) % 256) as u8);
    out.push(((v / 65536) % 256) as u8);
    out.push((v / 16777216) as u8);
    assert(out@ =~= old(out)@ + le32(v));
}

/// The bytes of a row: three a pixel, filled up to a multiple of four.
pub open spec fn row_bytes(w: int) -> int {
    (w * 3 + 3) / 4 * 4
}

/// The blue, green and red of some pixels.
pub open spec fn blue_green_red(pixels: Seq<[u8; 4]>) -> Seq<u8>
    decreases pixels.len(),
{
    if pixels.len() == 0 {
        Seq::empty()
    } else {
        let p = pixels.last();
        blue_green_red(pixels.drop_last()) + seq![p[2], p[1], p[0]]
    }
}

/// A row, filled up with zeros.
pub open spec fn padded_row(pixels: Seq<[u8; 4]>, w: int) -> Seq<u8> {
    blue_green_red(pixels) + Seq::new((row_bytes(w) - w * 3) as nat, |i: int| 0u8)
}

/// The lowest `n` of `h` rows, from the bottom up.
pub open spec fn rows_up(w: int, h: int, rgba: Seq<[u8; 4]>, n: int) -> Seq<u8>
    decreases n,
{
    if n <= 0 {
        Seq::empty()
    } else {
        rows_up(w, h, rgba, n - 1) + padded_row(rgba.subrange((h - n) * w, (h - n + 1) * w), w)
    }
}

/// Numbers as four bytes each.
pub open spec fn le32s(words: Seq<u32>) -> Seq<u8>
    decreases words.len(),
{
    if words.len() == 0 {
        Seq::empty()
    } else {
        le32s(words.drop_last()) + le32(words.last())
    }
}

fn push_le32s(out: &mut Vec<u8>, words: &[u32; 6])
    ensures
        final(out)@ == old(out)@ + le32s(words@),
{
    let mut i: usize = 0;
    assert(out@ =~= old(out)@ + le32s(words@.take(0)));
    while i < 6
        invariant
            i <= 6,
            out@ == old(out)@ + le32s(words@.take(i as int)),
        decreases 6 - i,
    {
        push_le32(out, words[i]);
        assert(words@.take(i + 1).drop_last() =~= words@.take(i as int));
        assert(out@ =~= old(out)@ + le32s(words@.take(i + 1)));
        i += 1;
    }
    assert(words@.take(6) =~= words@);
}

/// The header of an image: its sizes, one plane, 24 bits a pixel, not compressed.
pub open spec fn header(w: int, h: int) -> Seq<u8> {
    let data = row_bytes(w) * h;
    seq![0x42u8, 0x4D] + le32s(seq![(54 + data) as u32, 0u32, 54, 40, w as u32, h as u32]) + seq![1u8, 0, 24, 0] + le32s(
        seq![0u32, data as u32, 2835, 2835, 0, 0],
    )
}

fn push_header(w: usize, h: usize, data: usize) -> (out: Vec<u8>)
    requires
        data == row_bytes(w as int) * h,
        54 + data <= usize::MAX,
    ensures
        out@ == header(w as int, h as int),
{
    let mut out: Vec<u8> = vec![0x42, 0x4D];
    let sizes = [(54 + data) as u32, 0, 54, 40, w as u32, h as u32];
    let rest = [0, data as u32, 2835, 2835, 0, 0];
    assert(sizes@ =~= seq![(54 + data) as u32, 0u32, 54, 40, w as u32, h as u32]);
    assert(rest@ =~= seq![0u32, data as u32, 2835, 2835, 0, 0]);
    push_le32s(&mut out, &sizes);
    out.push(1);
    out.push(0);
    out.push(24);
    out.push(0);
    push_le32s(&mut out, &rest);
    assert(out@ =~= header(w as int, h as int));
    out
}

fn push_row(out: &mut Vec<u8>, w: usize, rgba: &Vec<[u8; 4]>, at: usize)
    requires
        at + w <= rgba@.len(),
        w * 3 + 3 <= usize::MAX,
    ensures
        final(out)@ == old(out)@ + padded_row(rgba@.subrange(at as int, at + w), w as int),
{
    let ghost line = rgba@.subrange(at as int, at + w);
    let ghost head = out@;
    let mut x: usize = 0;
    assert(line.take(0) =~= Seq::empty());
    assert(out@ =~= head + blue_green_red(line.take(0)));
    while x < w
        invariant
            x <= w,
            at + w <= rgba@.len(),
            line == rgba@.subrange(at as int, at + w),
            out@ == head + blue_green_red(line.take(x as int)),
        decreases w - x,
    {
        assert(at + x < rgba.len());
        let p = rgba[at + x];
        out.push(p[2]);
        out.push(p[1]);
        out.push(p[0]);
        proof {
            assert(line[x as int] == p);
            assert(line.take(x + 1).drop_last() =~= line.take(x as int));
            assert(out@ =~= head + blue_green_red(line.take(x + 1)));
        }
        x += 1;
    }
    assert(line.take(x as int) =~= line);
    let fill = (w * 3 + 3) / 4 * 4 - w * 3;
    let ghost body = out@;
    let mut k: usize = 0;
    while k < fill
        invariant
            k <= fill,
            out@ == body + Seq::new(k as nat, |i: int| 0u8),
        decreases fill - k,
    {
        out.push(0);
        assert(out@ =~= body + Seq::new((k + 1) as nat, |i: int| 0u8));
        k += 1;
    }
    assert(out@ =~= head + padded_row(line, w as int));
}

/// An image, rows from the top, as a BMP.
pub fn bmp_bytes(w: usize, h: usize, rgba: &Vec<[u8; 4]>) -> (out: Vec<u8>)
    requires
        w * h <= rgba@.len(),
        w * 3 + 3 <= usize::MAX,
        54 + row_bytes(w as int) * h <= usize::MAX,
    ensures
        out@ == header(w as int, h as int) + rows_up(w as int, h as int, rgba@, h as int),
{
    let row = (w * 3 + 3) / 4 * 4;
    assert(row * h >= 0) by (nonlinear_arith);
    let mut out = push_header(w, h, row * h);
    let ghost head = out@;
    let mut y: usize = h;
    assert(0 <= w * h && w * h == h * w) by (nonlinear_arith);
    assert(w * h <= rgba.len());
    let mut at: usize = w * h;
    assert(out@ =~= head + rows_up(w as int, h as int, rgba@, 0));
    while y > 0
        invariant
            y <= h,
            at == y * w,
            w * h <= rgba@.len(),
            w * 3 + 3 <= usize::MAX,
            out@ == head + rows_up(w as int, h as int, rgba@, h - y),
        decreases y,
    {
        assert(y * w - w == (y - 1) * w && y * w <= w * h && 0 <= (y - 1) * w) by (nonlinear_arith)
            requires
                0 < y <= h,
                0 <= w,
        ;
        y -= 1;
        at -= w;
        push_row(&mut out, w, rgba, at);
        proof {
            let n = h - y;
            assert((h - n) * w == at && (h - n + 1) * w == at + w) by (nonlinear_arith)
                requires
                    n == h - y,
                    at == y * w,
            ;
            assert(out@ =~= head + rows_up(w as int, h as int, rgba@, n));
        }
    }
    out
}

} // verus!
