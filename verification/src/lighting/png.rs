//! PNG images without compression: RGB, in stored deflate blocks.
use vstd::prelude::*;

verus! {

/// One bit of a CRC-32.
pub open spec fn crc_bit(c: u32) -> u32 {
    if c & 1 != 0 {
        0xEDB8_8320u32 ^ (c >> 1u32)
    } else {
        c >> 1u32
    }
}

/// `n` bits of a CRC-32.
pub open spec fn crc_bits(c: u32, n: nat) -> u32
    decreases n,
{
    if n == 0 {
        c
    } else {
        crc_bit(crc_bits(c, (n - 1) as nat))
    }
}

/// The CRC register after some bytes.
pub open spec fn crc_register(data: Seq<u8>) -> u32
    decreases data.len(),
{
    if data.len() == 0 {
        0xFFFF_FFFF
    } else {
        crc_bits(crc_register(data.drop_last()) ^ (data.last() as u32), 8)
    }
}

/// The CRC-32 of some bytes.
pub open spec fn crc_of(data: Seq<u8>) -> u32 {
    !crc_register(data)
}

/// The CRC-32 of some bytes.
pub fn crc32(data: &Vec<u8>) -> (crc: u32)
    ensures
        crc == crc_of(data@),
{
    let mut c: u32 = 0xFFFF_FFFF;
    let mut i: usize = 0;
    assert(data@.take(0) =~= Seq::empty());
    while i < data.len()
        invariant
            i <= data@.len(),
            c == crc_register(data@.take(i as int)),
        decreases data@.len() - i,
    {
        let ghost c0 = c;
        c ^= data[i] as u32;
        let ghost c1 = c;
        let mut k: usize = 0;
        while k < 8
            invariant
                k <= 8,
                c == crc_bits(c1, k as nat),
            decreases 8 - k,
        {
            c = if c & 1 != 0 {
                0xEDB8_8320u32 ^ (c >> 1u32)
            } else {
                c >> 1u32
            };
            k += 1;
        }
        assert(data@.take(i + 1).drop_last() =~= data@.take(i as int));
        i += 1;
    }
    assert(data@.take(i as int) =~= data@);
    !c
}

/// A number as four bytes, the highest first.
pub open spec fn be32(v: u32) -> Seq<u8> {
    seq![(v / 16777216) as u8, ((v / 65536) % 256) as u8, ((v / 256) % 256) as u8, (v % 256) as u8]
}

/// A number as two bytes, the lowest first.
pub open spec fn le16(v: int) -> Seq<u8> {
    seq![(v % 256) as u8, (v / 256) as u8]
}

fn push_be32(out: &mut Vec<u8>, v: u32)
    ensures
        final(out)@ == old(out)@ + be32(v),
{
    out.push((v / 16777216) as u8);
    out.push(((v / 65536) % 256) as u8);
    out.push(((v / 256) % 256) as u8);
    out.push((v % 256) as u8);
    assert(out@ =~= old(out)@ + be32(v));
}

fn push_le16(out: &mut Vec<u8>, v: u32)
    requires
        v <= 65535,
    ensures
        final(out)@ == old(out)@ + le16(v as int),
{
    out.push((v % 256) as u8);
    out.push((v / 256) as u8);
    assert(out@ =~= old(out)@ + le16(v as int));
}

fn push_bytes(out: &mut Vec<u8>, data: &Vec<u8>, from: usize, to: usize)
    requires
        from <= to <= data@.len(),
    ensures
        final(out)@ == old(out)@ + data@.subrange(from as int, to as int),
{
    let mut i = from;
    assert(out@ =~= old(out)@ + data@.subrange(from as int, from as int));
    while i < to
        invariant
            from <= i <= to <= data@.len(),
            out@ == old(out)@ + data@.subrange(from as int, i as int),
        decreases to - i,
    {
        out.push(data[i]);
        assert(out@ =~= old(out)@ + data@.subrange(from as int, i + 1));
        i += 1;
    }
}

/// A chunk: the length of its data, its kind, the data, and the CRC of both.
pub open spec fn chunk_bytes(kind: Seq<u8>, data: Seq<u8>) -> Seq<u8> {
    be32(data.len() as u32) + kind + data + be32(crc_of(kind + data))
}

/// Adds a chunk.
pub fn chunk(out: &mut Vec<u8>, kind: &[u8; 4], data: &Vec<u8>)
    ensures
        final(out)@ == old(out)@ + chunk_bytes(kind@, data@),
{
    push_be32(out, data.len() as u32);
    let mut body: Vec<u8> = Vec::new();
    let mut i: usize = 0;
    while i < 4
        invariant
            i <= 4,
            body@ == kind@.take(i as int),
        decreases 4 - i,
    {
        body.push(kind[i]);
        assert(body@ =~= kind@.take(i + 1));
        i += 1;
    }
    assert(body@ =~= kind@);
    push_bytes(&mut body, data, 0, data.len());
    assert(data@.subrange(0, data@.len() as int) =~= data@);
    push_bytes(out, &body, 0, body.len());
    assert(body@.subrange(0, body@.len() as int) =~= kind@ + data@);
    push_be32(out, crc32(&body));
    assert(out@ =~= old(out)@ + chunk_bytes(kind@, data@));
}

/// The red, green and blue of some pixels.
pub open spec fn colours(pixels: Seq<[u8; 4]>) -> Seq<u8>
    decreases pixels.len(),
{
    if pixels.len() == 0 {
        Seq::empty()
    } else {
        let p = pixels.last();
        colours(pixels.drop_last()) + seq![p[0], p[1], p[2]]
    }
}

/// The first `n` rows of an image `w` wide: each a zero, then its colours.
pub open spec fn rows(w: int, rgba: Seq<[u8; 4]>, n: int) -> Seq<u8>
    decreases n,
{
    if n <= 0 {
        Seq::empty()
    } else {
        rows(w, rgba, n - 1) + seq![0u8] + colours(rgba.subrange((n - 1) * w, n * w))
    }
}

fn image_rows(w: usize, h: usize, rgba: &Vec<[u8; 4]>) -> (raw: Vec<u8>)
    requires
        w * h <= rgba@.len(),
    ensures
        raw@ == rows(w as int, rgba@, h as int),
{
    let mut raw: Vec<u8> = Vec::new();
    let mut y: usize = 0;
    let mut at: usize = 0;
    assert(raw@ =~= rows(w as int, rgba@, 0));
    while y < h
        invariant
            y <= h,
            at == y * w,
            w * h <= rgba@.len(),
            raw@ == rows(w as int, rgba@, y as int),
        decreases h - y,
    {
        assert(y * w + w == (y + 1) * w && (y + 1) * w <= w * h) by (nonlinear_arith)
            requires
                y < h,
        ;
        assert(at + w <= rgba.len());
        raw.push(0);
        let ghost head = raw@;
        let ghost line = rgba@.subrange(y * w, (y + 1) * w);
        let mut x: usize = 0;
        assert(line.take(0) =~= Seq::empty());
        assert(raw@ =~= head + colours(line.take(0)));
        while x < w
            invariant
                x <= w,
                at == y * w,
                at + w <= rgba@.len(),
                line == rgba@.subrange(at as int, at + w),
                raw@ == head + colours(line.take(x as int)),
            decreases w - x,
        {
            assert(at + x < rgba.len());
            let p = rgba[at + x];
            raw.push(p[0]);
            raw.push(p[1]);
            raw.push(p[2]);
            proof {
                assert(line[x as int] == p);
                assert(line.take(x + 1).drop_last() =~= line.take(x as int));
                assert(raw@ =~= head + colours(line.take(x + 1)));
            }
            x += 1;
        }
        assert(line.take(x as int) =~= line);
        assert(raw@ =~= rows(w as int, rgba@, y + 1));
        at += w;
        y += 1;
    }
    raw
}

/// One stored deflate block.
pub open spec fn stored_block(data: Seq<u8>, is_last: bool) -> Seq<u8> {
    seq![
        if is_last {
            1u8
        } else {
            0u8
        },
    ] + le16(data.len() as int) + le16(65535 - data.len()) + data
}

/// Bytes as stored deflate blocks of at most 65535 bytes each.
pub open spec fn stored(raw: Seq<u8>) -> Seq<u8>
    decreases raw.len(),
{
    if raw.len() == 0 {
        Seq::empty()
    } else if raw.len() <= 65535 {
        stored_block(raw, true)
    } else {
        stored_block(raw.take(65535), false) + stored(raw.skip(65535))
    }
}

/// The bytes that stored deflate blocks hold.
pub open spec fn unstored(z: Seq<u8>) -> Seq<u8>
    decreases z.len(),
{
    if z.len() < 5 {
        Seq::empty()
    } else {
        let n = z[1] + 256 * z[2];
        if z[0] == 1 || 5 + n > z.len() {
            z.subrange(5, 5 + n)
        } else {
            z.subrange(5, 5 + n) + unstored(z.skip(5 + n))
        }
    }
}

/// Stored blocks hold what was stored.
pub proof fn stored_blocks_hold(raw: Seq<u8>)
    ensures
        unstored(stored(raw)) == raw,
    decreases raw.len(),
{
    let z = stored(raw);
    if raw.len() == 0 {
        assert(unstored(z) =~= raw);
    } else if raw.len() <= 65535 {
        let n = raw.len() as int;
        assert(z[1] + 256 * z[2] == n);
        assert(z.subrange(5, 5 + n) =~= raw);
    } else {
        stored_blocks_hold(raw.skip(65535));
        assert(z[1] + 256 * z[2] == 65535);
        assert(z.subrange(5, 65540) =~= raw.take(65535));
        assert(z.skip(65540) =~= stored(raw.skip(65535)));
        assert(raw.take(65535) + raw.skip(65535) =~= raw);
    }
}

fn push_stored(z: &mut Vec<u8>, raw: &Vec<u8>)
    ensures
        final(z)@ == old(z)@ + stored(raw@),
{
    let mut at: usize = 0;
    let ghost head = z@;
    assert(raw@.skip(0) =~= raw@);
    while at < raw.len()
        invariant
            at <= raw@.len(),
            z@ + stored(raw@.skip(at as int)) == head + stored(raw@),
        decreases raw@.len() - at,
    {
        let ghost before = z@;
        let left = raw.len() - at;
        let ghost rest = raw@.skip(at as int);
        let n: u32 = if left <= 65535 {
            left as u32
        } else {
            65535
        };
        z.push(
            if left <= 65535 {
                1
            } else {
                0
            },
        );
        push_le16(z, n);
        push_le16(z, 65535 - n);
        push_bytes(z, raw, at, at + n as usize);
        proof {
            assert(raw@.subrange(at as int, at + n) =~= rest.take(n as int));
            assert(rest.take(rest.len() as int) =~= rest);
            assert(raw@.skip(at + n) =~= rest.skip(n as int));
            assert(z@ =~= before + stored_block(rest.take(n as int), left <= 65535));
            if left <= 65535 {
                assert(stored(raw@.skip(at + n)) =~= Seq::empty());
            }
            assert(z@ + stored(raw@.skip(at + n)) =~= before + stored(rest));
        }
        at += n as usize;
    }
    assert(stored(raw@.skip(at as int)) =~= Seq::empty());
    assert(z@ =~= head + stored(raw@));
}

/// The two sums of an Adler-32.
pub open spec fn adler(raw: Seq<u8>) -> (int, int)
    decreases raw.len(),
{
    if raw.len() == 0 {
        (1, 0)
    } else {
        let (a, b) = adler(raw.drop_last());
        let a2 = (a + raw.last()) % 65521;
        (a2, (b + a2) % 65521)
    }
}

/// The Adler-32 of some bytes.
pub fn adler32(raw: &Vec<u8>) -> (sum: u32)
    ensures
        sum == adler(raw@).1 * 65536 + adler(raw@).0,
{
    let mut a: u32 = 1;
    let mut b: u32 = 0;
    let mut i: usize = 0;
    assert(raw@.take(0) =~= Seq::empty());
    while i < raw.len()
        invariant
            i <= raw@.len(),
            a < 65521,
            b < 65521,
            adler(raw@.take(i as int)) == (a as int, b as int),
        decreases raw@.len() - i,
    {
        a = (a + raw[i] as u32) % 65521;
        b = (b + a) % 65521;
        assert(raw@.take(i + 1).drop_last() =~= raw@.take(i as int));
        i += 1;
    }
    assert(raw@.take(i as int) =~= raw@);
    b * 65536 + a
}

/// The eight bytes every PNG starts with.
pub open spec fn signature() -> Seq<u8> {
    seq![0x89u8, 0x50, 0x4E, 0x47, 0x0D, 0x0A, 0x1A, 0x0A]
}

/// The data of an image: a zlib header, its rows stored, and their checksum.
pub open spec fn image_data(w: int, h: int, rgba: Seq<[u8; 4]>) -> Seq<u8> {
    let raw = rows(w, rgba, h);
    let (a, b) = adler(raw);
    seq![0x78u8, 0x01] + stored(raw) + be32((b * 65536 + a) as u32)
}

/// An image as a PNG.
pub open spec fn png_of(w: int, h: int, rgba: Seq<[u8; 4]>) -> Seq<u8> {
    signature() + chunk_bytes(
        seq![0x49u8, 0x48, 0x44, 0x52],
        be32(w as u32) + be32(h as u32) + seq![8u8, 2, 0, 0, 0],
    ) + chunk_bytes(seq![0x49u8, 0x44, 0x41, 0x54], image_data(w, h, rgba)) + chunk_bytes(
        seq![0x49u8, 0x45, 0x4E, 0x44],
        Seq::empty(),
    )
}

/// An image, rows from the top, as an RGB PNG.
pub fn png_bytes(w: usize, h: usize, rgba: &Vec<[u8; 4]>) -> (out: Vec<u8>)
    requires
        w * h <= rgba@.len(),
    ensures
        out@ == png_of(w as int, h as int, rgba@),
{
    let raw = image_rows(w, h, rgba);
    let mut z: Vec<u8> = vec![0x78, 0x01];
    push_stored(&mut z, &raw);
    let sum = adler32(&raw);
    push_be32(&mut z, sum);
    assert(z@ =~= image_data(w as int, h as int, rgba@));
    let mut out: Vec<u8> = vec![0x89, 0x50, 0x4E, 0x47, 0x0D, 0x0A, 0x1A, 0x0A];
    assert(out@ =~= signature());
    let mut header: Vec<u8> = Vec::new();
    push_be32(&mut header, w as u32);
    push_be32(&mut header, h as u32);
    let rest: Vec<u8> = vec![8, 2, 0, 0, 0];
    push_bytes(&mut header, &rest, 0, 5);
    assert(header@ =~= be32(w as u32) + be32(h as u32) + seq![8u8, 2, 0, 0, 0]);
    let ihdr: [u8; 4] = [0x49, 0x48, 0x44, 0x52];
    let idat: [u8; 4] = [0x49, 0x44, 0x41, 0x54];
    let iend: [u8; 4] = [0x49, 0x45, 0x4E, 0x44];
    let nothing: Vec<u8> = Vec::new();
    chunk(&mut out, &ihdr, &header);
    chunk(&mut out, &idat, &z);
    chunk(&mut out, &iend, &nothing);
    proof {
        assert(ihdr@ =~= seq![0x49u8, 0x48, 0x44, 0x52]);
        assert(idat@ =~= seq![0x49u8, 0x44, 0x41, 0x54]);
        assert(iend@ =~= seq![0x49u8, 0x45, 0x4E, 0x44]);
    }
    out
}

} // verus!
