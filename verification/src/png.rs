//! Writing a captured bitmap as a PNG file: the signature, an IHDR chunk
//! for an 8-bit RGB image, one IDAT chunk with the zlib-compressed
//! scanlines, and an IEND chunk.
use vstd::prelude::*;
use std::io::Write;

verus! {

/// A number as four bytes, most significant first.
pub open spec fn be32(n: u32) -> Seq<u8> {
    seq![(n >> 24u32) as u8, (n >> 16u32) as u8, (n >> 8u32) as u8, n as u8]
}

/// The CRC register after feeding `k` more bits (reflected polynomial
/// `0xEDB88320`).
pub open spec fn crc_shift(c: u32, k: nat) -> u32
    decreases k,
{
    if k == 0 {
        c
    } else {
        let c1 = crc_shift(c, (k - 1) as nat);
        if c1 & 1u32 == 1u32 {
            (c1 >> 1u32) ^ 0xEDB8_8320u32
        } else {
            c1 >> 1u32
        }
    }
}

/// The CRC register after feeding the bytes `d`.
pub open spec fn crc_feed(c: u32, d: Seq<u8>) -> u32
    decreases d.len(),
{
    if d.len() == 0 {
        c
    } else {
        crc_feed(crc_shift(c ^ (d[0] as u32), 8), d.drop_first())
    }
}

/// The CRC-32 of `d` (the one zlib, gzip and PNG use).
pub open spec fn spec_crc32(d: Seq<u8>) -> u32 {
    crc_feed(0xFFFF_FFFFu32, d) ^ 0xFFFF_FFFFu32
}

/// Computes the CRC-32 of `data` with `flate2::Crc` (new, `update`,
/// `sum`). The contract claims that the result is the standard CRC-32,
/// spelled out as `spec_crc32`.
#[verifier::external_body]
fn crc32(data: &[u8]) -> (r: u32)
    ensures
        r == spec_crc32(data@),
{
    let mut c = flate2::Crc::new();
    c.update(data);
    c.sum()
}

/// What flate2's `ZlibEncoder` (default level) produces for these bytes.
pub uninterp spec fn spec_zlib(data: Seq<u8>) -> Seq<u8>;

/// Compresses `data` into a zlib stream in memory with
/// `flate2::write::ZlibEncoder` (new, `write_all`, `finish`). The contract
/// claims that this succeeds (writing into a `Vec` cannot fail, and the
/// encoder reports an error only when misused) and that the result is a
/// function of `data`, named `spec_zlib`.
#[verifier::external_body]
fn zlib(data: &[u8]) -> (r: Result<Vec<u8>, std::io::Error>)
    ensures
        r is Ok,
        r matches Ok(b) ==> b@ == spec_zlib(data@),
{
    let mut e = flate2::write::ZlibEncoder::new(Vec::new(), flate2::Compression::default());
    match e.write_all(data) {
        Ok(()) => e.finish(),
        Err(err) => Err(err),
    }
}

/// The PNG signature.
pub open spec fn png_signature() -> Seq<u8> {
    seq![137u8, 80u8, 78u8, 71u8, 13u8, 10u8, 26u8, 10u8]
}

/// A PNG chunk: the length of the data, the chunk type, the data, and the
/// CRC-32 of type and data.
pub open spec fn chunk(kind: Seq<u8>, data: Seq<u8>) -> Seq<u8> {
    be32(data.len() as u32) + kind + data + be32(spec_crc32(kind + data))
}

/// The IHDR data of an 8-bit RGB image, not interlaced.
pub open spec fn ihdr(width: u32, height: u32) -> Seq<u8> {
    be32(width) + be32(height) + seq![8u8, 2u8, 0u8, 0u8, 0u8]
}

/// The chunk types used.
pub open spec fn kind_ihdr() -> Seq<u8> {
    seq![73u8, 72u8, 68u8, 82u8]
}

pub open spec fn kind_idat() -> Seq<u8> {
    seq![73u8, 68u8, 65u8, 84u8]
}

pub open spec fn kind_iend() -> Seq<u8> {
    seq![73u8, 69u8, 78u8, 68u8]
}

/// The first `n` pixels of the row at byte offset `off` of a BGRA bitmap,
/// as RGB bytes.
pub open spec fn row_rgb(bgra: Seq<u8>, off: int, n: nat) -> Seq<u8>
    decreases n,
{
    if n == 0 {
        Seq::empty()
    } else {
        let o = off + 4 * (n - 1);
        row_rgb(bgra, off, (n - 1) as nat) + seq![bgra[o + 2], bgra[o + 1], bgra[o]]
    }
}

/// The first `h` scanlines of a top-down BGRA bitmap `w` pixels wide, each
/// as filter type 0 followed by its RGB bytes.
pub open spec fn rgb_rows(bgra: Seq<u8>, w: nat, h: nat) -> Seq<u8>
    decreases h,
{
    if h == 0 {
        Seq::empty()
    } else {
        rgb_rows(bgra, w, (h - 1) as nat) + seq![0u8] + row_rgb(bgra, 4 * w * (h - 1), w)
    }
}

/// Byte `j` of scanline `r` in the image data of a `w`-pixel-wide image.
pub open spec fn scanline_byte(rows: Seq<u8>, w: nat, r: nat, j: nat) -> u8 {
    rows[(r * (3 * w + 1) + j) as int]
}

/// What byte `j` of scanline `r` must be for a top-down BGRA bitmap `w`
/// pixels wide: the filter type 0, then for each pixel of bitmap row `r`,
/// in order, its red, green and blue bytes.
pub open spec fn expected_scanline_byte(bgra: Seq<u8>, w: nat, r: nat, j: nat) -> u8 {
    if j == 0 {
        0u8
    } else {
        let c = (j - 1) / 3;
        let k = (j - 1) % 3;
        bgra[4 * w * r + 4 * c + 2 - k]
    }
}

/// The pixels of a row come out in order, each as red, green, blue.
proof fn lemma_row_rgb(bgra: Seq<u8>, off: int, n: nat)
    ensures
        row_rgb(bgra, off, n).len() == 3 * n,
        forall|j: int| 0 <= j < 3 * n ==> #[trigger] row_rgb(bgra, off, n)[j] == bgra[off + 4 * (j / 3) + 2 - j % 3],
    decreases n,
{
    if n > 0 {
        lemma_row_rgb(bgra, off, (n - 1) as nat);
    }
}

/// Row order: the image data holds one scanline per bitmap row, top row
/// first; scanline `r` is filter type 0 followed by the red, green and
/// blue of the pixels of bitmap row `r`, left to right.
pub proof fn lemma_scanlines_in_row_order(bgra: Seq<u8>, w: nat, h: nat)
    ensures
        rgb_rows(bgra, w, h).len() == h * (3 * w + 1),
        forall|r: nat, j: nat| r < h && j < 3 * w + 1 ==> #[trigger] scanline_byte(rgb_rows(bgra, w, h), w, r, j)
            == expected_scanline_byte(bgra, w, r, j),
    decreases h,
{
    if h > 0 {
        let hp = (h - 1) as nat;
        let prev = rgb_rows(bgra, w, hp);
        let rows = rgb_rows(bgra, w, h);
        let off: int = (4 * w * hp) as int;
        lemma_scanlines_in_row_order(bgra, w, hp);
        lemma_row_rgb(bgra, off, w);
        assert(hp * (3 * w + 1) + (3 * w + 1) == h * (3 * w + 1)) by (nonlinear_arith)
            requires
                hp + 1 == h,
        ;
        assert(rows.len() == prev.len() + 1 + 3 * w);
        assert forall|r: nat, j: nat| r < h && j < 3 * w + 1 implies #[trigger] scanline_byte(rows, w, r, j)
            == expected_scanline_byte(bgra, w, r, j) by {
            let idx: int = (r * (3 * w + 1) + j) as int;
            if r < hp {
                assert(idx < hp * (3 * w + 1)) by (nonlinear_arith)
                    requires
                        r < hp,
                        j < 3 * w + 1,
                        idx == r * (3 * w + 1) + j,
                ;
                assert(rows[idx] == prev[idx]);
                assert(scanline_byte(prev, w, r, j) == expected_scanline_byte(bgra, w, r, j));
            } else {
                assert(r == hp);
                assert(idx == prev.len() + j);
                if j > 0 {
                    assert(rows[idx] == row_rgb(bgra, off, w)[j - 1]);
                    assert(4 * w * r == off);
                }
            }
        }
    } else {
        assert(h * (3 * w + 1) == 0) by (nonlinear_arith)
            requires
                h == 0,
        ;
    }
}

/// The PNG file of a top-down BGRA bitmap, or `None` when its compressed
/// scanlines are too long for a chunk.
pub open spec fn spec_png(bgra: Seq<u8>, width: u32, height: u32) -> Option<Seq<u8>> {
    let z = spec_zlib(rgb_rows(bgra, width as nat, height as nat));
    if z.len() <= u32::MAX {
        Some(
            png_signature() + chunk(kind_ihdr(), ihdr(width, height)) + chunk(kind_idat(), z) + chunk(
                kind_iend(),
                Seq::empty(),
            ),
        )
    } else {
        None
    }
}

/// Appends `n` as four bytes, most significant first.
fn push_be32(out: &mut Vec<u8>, n: u32)
    ensures
        final(out)@ == old(out)@ + be32(n),
{
    out.push((n >> 24u32) as u8);
    out.push((n >> 16u32) as u8);
    out.push((n >> 8u32) as u8);
    out.push(n as u8);
    assert(final(out)@ =~= old(out)@ + be32(n));
}

/// Appends all of `src` to `out`.
fn push_all(out: &mut Vec<u8>, src: &[u8])
    ensures
        final(out)@ == old(out)@ + src@,
{
    let ghost start = out@;
    let mut i: usize = 0;
    while i < src.len()
        invariant
            i <= src.len(),
            out@ == start + src@.take(i as int),
        decreases src.len() - i,
    {
        out.push(src[i]);
        assert(src@.take(i + 1) =~= src@.take(i as int).push(src@[i as int]));
        i = i + 1;
    }
    assert(src@.take(src.len() as int) =~= src@);
}

/// Appends the chunk of type `kind` with data `data`.
fn push_chunk(out: &mut Vec<u8>, kind: &[u8], data: &[u8])
    requires
        data@.len() <= u32::MAX,
    ensures
        final(out)@ == old(out)@ + chunk(kind@, data@),
{
    let ghost start = out@;
    push_be32(out, data.len() as u32);
    let mut kd: Vec<u8> = Vec::new();
    push_all(&mut kd, kind);
    push_all(&mut kd, data);
    push_all(out, kind);
    push_all(out, data);
    let c = crc32(kd.as_slice());
    push_be32(out, c);
    assert(kd@ =~= kind@ + data@);
    assert(out@ =~= start + chunk(kind@, data@));
}

/// The scanlines of a top-down BGRA bitmap as PNG wants them for an RGB
/// image: each row is filter type 0 followed by red, green and blue of
/// each pixel.
pub fn rgb_scanlines(bgra: &Vec<u8>, width: u32, height: u32) -> (r: Vec<u8>)
    requires
        bgra@.len() == 4 * width * height,
    ensures
        r@ == rgb_rows(bgra@, width as nat, height as nat),
{
    let w = width as usize;
    let h = height as usize;
    let n = bgra.len();
    let mut out: Vec<u8> = Vec::new();
    let mut row: usize = 0;
    let mut base: usize = 0;
    while row < h
        invariant
            w == width,
            h == height,
            bgra@.len() == 4 * w * h,
            n == bgra@.len(),
            row <= h,
            base == 4 * w * row,
            out@ == rgb_rows(bgra@, w as nat, row as nat),
        decreases h - row,
    {
        assert(4 * w * row + 4 * w <= 4 * w * h) by (nonlinear_arith)
            requires
                row < h,
        ;
        let ghost before = out@;
        out.push(0u8);
        let mut c: usize = 0;
        while c < w
            invariant
                w == width,
                bgra@.len() == 4 * w * h,
                n == bgra@.len(),
                base == 4 * w * row,
                base + 4 * w <= bgra@.len(),
                c <= w,
                out@ == before + seq![0u8] + row_rgb(bgra@, base as int, c as nat),
            decreases w - c,
        {
            let o = base + 4 * c;
            out.push(bgra[o + 2]);
            out.push(bgra[o + 1]);
            out.push(bgra[o]);
            c = c + 1;
        }
        assert(4 * w * (row + 1) == 4 * w * row + 4 * w) by (nonlinear_arith);
        base = base + 4 * w;
        row = row + 1;
    }
    out
}

/// The PNG file of a top-down BGRA bitmap `width` by `height` pixels, as
/// an RGB image (alpha is dropped), or `None` when the compressed
/// scanlines are too long for one chunk.
pub fn encode_png(bgra: &Vec<u8>, width: u32, height: u32) -> (r: Option<Vec<u8>>)
    requires
        bgra@.len() == 4 * width * height,
    ensures
        r matches Some(v) ==> spec_png(bgra@, width, height) == Some(v@),
        r is None ==> spec_png(bgra@, width, height) is None,
{
    let rows = rgb_scanlines(bgra, width, height);
    let z = match zlib(rows.as_slice()) {
        Ok(z) => z,
        Err(_) => {
            proof {
                assert(false);
            }
            return None;
        },
    };
    if z.len() > u32::MAX as usize {
        return None;
    }
    let mut out: Vec<u8> = Vec::new();
    push_all(&mut out, &[137u8, 80u8, 78u8, 71u8, 13u8, 10u8, 26u8, 10u8]);
    let mut hdr: Vec<u8> = Vec::new();
    push_be32(&mut hdr, width);
    push_be32(&mut hdr, height);
    push_all(&mut hdr, &[8u8, 2u8, 0u8, 0u8, 0u8]);
    push_chunk(&mut out, &[73u8, 72u8, 68u8, 82u8], hdr.as_slice());
    push_chunk(&mut out, &[73u8, 68u8, 65u8, 84u8], z.as_slice());
    push_chunk(&mut out, &[73u8, 69u8, 78u8, 68u8], &[]);
    proof {
        assert(hdr@ =~= ihdr(width, height));
    }
    assert(out@ =~= png_signature() + chunk(kind_ihdr(), ihdr(width, height)) + chunk(kind_idat(), z@) + chunk(
        kind_iend(),
        Seq::empty(),
    ));
    Some(out)
}

} // verus!
