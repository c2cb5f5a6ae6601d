//! Compression of tiles for the wire and their decoding back to RGBA on the
//! browser side. The DEFLATE coding itself is flate2's.

use vstd::prelude::*;
use std::io::Write;
use flate2::write::DeflateDecoder;
use flate2::write::DeflateEncoder;
use flate2::Compression;
use crate::convert::{chroma_index, i420_fits, i420_to_rgba, rgba_byte, rgba_channel};
use crate::imop::{tile_buffer_len, tile_byte, tile_copied, tile_h, tile_plane, tile_w, tile_u_start, tile_v_start, tile_y_start, uv_rows};
use vstd::arithmetic::div_mod::lemma_fundamental_div_mod_converse;

verus! {

/// The raw DEFLATE stream that flate2's encoder, at its default level,
/// produces for `data` written in one piece and finished.
pub uninterp spec fn deflated(data: Seq<u8>) -> Seq<u8>;

/// What flate2's raw DEFLATE decoder yields for the stream `data` written in
/// one piece and finished: the decompressed bytes, or `None` when it reports
/// an error.
pub uninterp spec fn inflated(data: Seq<u8>) -> Option<Seq<u8>>;

/// Compresses `data` with `flate2::write::DeflateEncoder` over a `Vec`
/// (`Compression::default()`), one `write_all` then `finish`. Writing into a
/// `Vec` cannot fail. Claimed: the result is the named stream for `data`, and
/// flate2's decoder gives `data` back from it (DEFLATE is lossless).
#[verifier::external_body]
fn deflate_bytes(data: &[u8]) -> (out: Vec<u8>)
    ensures
        out@ == deflated(data@),
        inflated(out@) == Some(data@),
{
    let mut e = DeflateEncoder::new(Vec::new(), Compression::default());
    e.write_all(data).unwrap();
    e.finish().unwrap()
}

/// Decompresses `data` with `flate2::write::DeflateDecoder` over a `Vec`,
/// one `write_all` then `finish`; `None` where either reports an error.
/// Claimed: the result is the named outcome for `data`.
#[verifier::external_body]
fn inflate_bytes(data: &[u8]) -> (out: Option<Vec<u8>>)
    ensures
        match out {
            Some(v) => inflated(data@) == Some(v@),
            None => inflated(data@) is None,
        },
{
    let mut d = DeflateDecoder::new(Vec::new());
    match d.write_all(data) {
        Ok(()) => d.finish().ok(),
        Err(_) => None,
    }
}

/// The message that carries one tile (an I420 tile buffer) to the browser:
/// the buffer compressed as one DEFLATE stream.
pub fn tile_message(tile: &[u8]) -> (m: Vec<u8>)
    ensures
        m@ == deflated(tile@),
        inflated(m@) == Some(tile@),
{
    deflate_bytes(tile)
}

/// Size of the luma plane of a `sw` by `sh` tile.
pub open spec fn luma_len(sw: int, sh: int) -> int {
    sw * sh
}

/// A decompressed tile buffer of `len` bytes holds a `sw` by `sh` I420 tile:
/// luma plane, a quarter-plane of U, the rest V, each large enough.
pub open spec fn tile_yuv_ok(len: int, sw: int, sh: int) -> bool {
    let sp = luma_len(sw, sh);
    &&& 4 * sp <= usize::MAX
    &&& sp + sp / 4 <= len
    &&& i420_fits(sw, sh, sp, sp / 4, len - sp - sp / 4, 4 * sp)
}

/// The RGBA image (`4 * sw * sh` bytes) of a `sw` by `sh` tile held in the
/// I420 buffer `yuv`.
pub open spec fn tile_rgba_of(yuv: Seq<u8>, sw: int, sh: int) -> Seq<u8> {
    let sp = luma_len(sw, sh);
    Seq::new(
        (4 * sp) as nat,
        |q: int|
            rgba_byte(sw, yuv.subrange(0, sp), yuv.subrange(sp, sp + sp / 4), yuv.subrange(sp + sp / 4, yuv.len() as int), q),
    )
}

/// What the browser draws for a tile message: the RGBA image of the tile
/// it decompresses to, if it decompresses to a well-formed tile.
pub open spec fn spec_decode_tile(packet: Seq<u8>, sw: int, sh: int) -> Option<Seq<u8>> {
    match inflated(packet) {
        Some(yuv) => if tile_yuv_ok(yuv.len() as int, sw, sh) {
            Some(tile_rgba_of(yuv, sw, sh))
        } else {
            None
        },
        None => None,
    }
}

/// Converts a `sw` by `sh` I420 tile buffer to RGBA.
pub fn tile_rgba(yuv: &[u8], sw: usize, sh: usize) -> (rgba: Vec<u8>)
    requires
        tile_yuv_ok(yuv@.len() as int, sw as int, sh as int),
    ensures
        rgba@ == tile_rgba_of(yuv@, sw as int, sh as int),
{
    let sp = sw * sh;
    let rest = sp + sp / 4;
    let len = yuv.len();
    let mut rgba = vec![0u8; sp * 4];
    let sy = &yuv[0..sp];
    let su = &yuv[sp..rest];
    let sv = &yuv[rest..len];
    i420_to_rgba(sw, sh, sy, su, sv, rgba.as_mut_slice());
    assert(rgba@ =~= tile_rgba_of(yuv@, sw as int, sh as int));
    rgba
}

/// Browser side of a tile message: decompresses it and converts the tile to
/// RGBA; `None` if it does not decompress, or not to a `sw` by `sh` tile.
pub fn decode_tile(packet: &[u8], sw: usize, sh: usize) -> (r: Option<Vec<u8>>)
    ensures
        match r {
            Some(v) => spec_decode_tile(packet@, sw as int, sh as int) == Some(v@),
            None => spec_decode_tile(packet@, sw as int, sh as int) is None,
        },
{
    match inflate_bytes(packet) {
        Some(yuv) => {
            if tile_yuv_fits(yuv.len(), sw, sh) {
                Some(tile_rgba(yuv.as_slice(), sw, sh))
            } else {
                None
            }
        },
        None => None,
    }
}

/// Tests [`tile_yuv_ok`].
pub fn tile_yuv_fits(len: usize, sw: usize, sh: usize) -> (ok: bool)
    ensures
        ok == tile_yuv_ok(len as int, sw as int, sh as int),
{
    let sp = match sw.checked_mul(sh) {
        Some(sp) => sp,
        None => return false,
    };
    if sp > usize::MAX / 4 {
        return false;
    }
    let rest = sp + sp / 4;
    if rest > len {
        return false;
    }
    if sw == 0 || sh == 0 {
        return true;
    }
    assert(((sh - 1) / 2) * (sw / 2) + (sw - 1) / 2 <= sp) by (nonlinear_arith)
        requires
            sw > 0,
            sh > 0,
            sp == sw * sh,
    {
        assert(((sh - 1) / 2) * (sw / 2) <= (sh - 1) * sw);
        assert((sh - 1) * sw + sw == sp);
    }
    let last = ((sh - 1) / 2) * (sw / 2) + (sw - 1) / 2;
    last < sp / 4 && last < len - rest
}

/// What a tile message carries comes back on the browser: a message made by
/// [`tile_message`] for a well-formed tile decodes to that tile's RGBA image.
pub proof fn law_tile_round_trip(packet: Seq<u8>, tile: Seq<u8>, sw: int, sh: int)
    requires
        inflated(packet) == Some(tile),
        tile_yuv_ok(tile.len() as int, sw, sh),
    ensures
        spec_decode_tile(packet, sw, sh) == Some(tile_rgba_of(tile, sw, sh)),
{
}


/// The RGBA image of a whole `width` by `height` I420 frame `frame`.
pub open spec fn frame_rgba_byte(frame: Seq<u8>, width: int, height: int, q: int) -> u8 {
    let plane = width * height;
    rgba_byte(
        width,
        frame.subrange(0, plane),
        frame.subrange(plane, plane + plane / 4),
        frame.subrange(plane + plane / 4, frame.len() as int),
        q,
    )
}

/// The browser's picture is the captured screen: when a frame of at least
/// `width * height * 3 / 2` bytes is cut into tiles with even sides, every
/// byte of the RGBA image of the tile in row `j`, column `i` (pixel `(c, r)`
/// of the tile, channel `ch`) equals that byte of the RGBA image of the whole
/// frame at pixel `(i * sw + c, j * sh + r)`.
pub proof fn law_tile_colours_match_frame(
    tile: Seq<u8>,
    old: Seq<u8>,
    frame: Seq<u8>,
    width: int,
    height: int,
    n: int,
    m: int,
    j: int,
    i: int,
    r: int,
    c: int,
    ch: int,
)
    requires
        n > 0,
        m > 0,
        width >= 0,
        height >= 0,
        0 <= j < m,
        0 <= i < n,
        tile_w(width, n) % 2 == 0,
        tile_h(height, m) % 2 == 0,
        old.len() == tile_buffer_len(width, height, n, m),
        frame.len() >= width * height * 3 / 2,
        tile_copied(tile, old, frame, width, height, n, m, j, i),
        0 <= r < tile_h(height, m),
        0 <= c < tile_w(width, n),
        0 <= ch < 4,
    ensures
        tile_rgba_of(tile, tile_w(width, n), tile_h(height, m))[4 * (r * tile_w(width, n) + c) + ch]
            == frame_rgba_byte(
            frame,
            width,
            height,
            4 * ((j * tile_h(height, m) + r) * width + (i * tile_w(width, n) + c)) + ch,
        ),
{
    let sw = tile_w(width, n);
    let sh = tile_h(height, m);
    let a = sw / 2;
    let b = sh / 2;
    let hw = width / 2;
    let plane = width * height;
    let sp = tile_plane(width, height, n, m);
    assert(sw == 2 * a && sh == 2 * b && a >= 1 && b >= 1);
    assert(sp == 4 * (a * b)) by (nonlinear_arith)
        requires sp == sw * sh, sw == 2 * a, sh == 2 * b;
    assert(sp / 4 == a * b);
    assert(uv_rows(height, m) == b);
    // the grid lies inside the frame
    assert(n * sw <= width && m * sh <= height) by (nonlinear_arith)
        requires n > 0, m > 0, width >= 0, height >= 0, sw == width / n, sh == height / m;
    assert(i * sw + sw <= width && j * sh + sh <= height) by (nonlinear_arith)
        requires 0 <= i < n, 0 <= j < m, n * sw <= width, m * sh <= height, sw >= 0, sh >= 0;
    let x = i * sw + c;
    let y = j * sh + r;
    assert(0 <= x < width && 0 <= y < height) by (nonlinear_arith)
        requires x == i * sw + c, y == j * sh + r, i * sw + sw <= width, j * sh + sh <= height, 0 <= c < sw, 0 <= r < sh, i >= 0, j >= 0, sw >= 0, sh >= 0;
    // tile side: pixel and chroma positions
    let pix = r * sw + c;
    assert(0 <= pix < sp) by (nonlinear_arith)
        requires pix == r * sw + c, 0 <= r < sh, 0 <= c < sw, sp == sw * sh;
    let q = 4 * pix + ch;
    lemma_fundamental_div_mod_converse(q, 4, pix, ch);
    lemma_fundamental_div_mod_converse(pix, sw, r, c);
    let tu = (r / 2) * a + c / 2;
    assert(chroma_index(sw, r, c) == tu);
    assert(0 <= tu < a * b) by (nonlinear_arith)
        requires tu == (r / 2) * a + c / 2, 0 <= r < sh, 0 <= c < sw, sw == 2 * a, sh == 2 * b,
    {
        assert(r / 2 <= b - 1);
        assert((r / 2) * a <= (b - 1) * a);
    }
    lemma_fundamental_div_mod_converse(tu, a, r / 2, c / 2);
    // frame side: pixel and chroma positions
    let fpix = y * width + x;
    assert(0 <= fpix < plane) by (nonlinear_arith)
        requires fpix == y * width + x, 0 <= y < height, 0 <= x < width, plane == width * height;
    let fq = 4 * fpix + ch;
    lemma_fundamental_div_mod_converse(fq, 4, fpix, ch);
    lemma_fundamental_div_mod_converse(fpix, width, y, x);
    assert(y / 2 == j * b + r / 2) by (nonlinear_arith)
        requires y == j * sh + r, sh == 2 * b, j >= 0, r >= 0;
    assert(x / 2 == i * a + c / 2) by (nonlinear_arith)
        requires x == i * sw + c, sw == 2 * a, i >= 0, c >= 0;
    let fu = (y / 2) * hw + x / 2;
    assert(chroma_index(width, y, x) == fu);
    assert(0 <= fu < plane / 4) by (nonlinear_arith)
        requires
            fu == (y / 2) * hw + x / 2,
            y / 2 == j * b + r / 2,
            x / 2 == i * a + c / 2,
            0 <= r < sh, 0 <= c < sw, sw == 2 * a, sh == 2 * b,
            0 <= j < m, 0 <= i < n,
            n * sw <= width, m * sh <= height,
            hw == width / 2,
            plane == width * height,
            a >= 1, b >= 1,
    {
        assert(y / 2 <= m * b - 1);
        assert(x / 2 <= n * a - 1);
        assert(n * a <= hw);
        assert(m * b <= height / 2);
        assert(0 <= y / 2);
        assert((y / 2) * hw <= (m * b - 1) * hw);
        assert(fu <= (m * b - 1) * hw + hw - 1);
        assert((m * b - 1) * hw + hw == (m * b) * hw);
        assert((m * b) * hw <= (height / 2) * hw);
        assert((height / 2) * hw * 4 <= plane);
    }
    // the luma sample
    assert(tile_y_start(width, height, n, m, j, i) + r * width + c == fpix) by (nonlinear_arith)
        requires
            tile_y_start(width, height, n, m, j, i) == (j * sh) * width + i * sw,
            fpix == y * width + x,
            y == j * sh + r,
            x == i * sw + c,
    ;
    // the chroma samples
    assert((j * sh) / 2 == j * b && (i * sw) / 2 == i * a) by (nonlinear_arith)
        requires sh == 2 * b, sw == 2 * a;
    assert(tile_u_start(width, height, n, m, j, i) + (r / 2) * hw + c / 2 == plane + fu) by (nonlinear_arith)
        requires
            tile_u_start(width, height, n, m, j, i) == plane + ((j * sh) / 2) * hw + (i * sw) / 2,
            (j * sh) / 2 == j * b,
            (i * sw) / 2 == i * a,
            fu == (y / 2) * hw + x / 2,
            y / 2 == j * b + r / 2,
            x / 2 == i * a + c / 2,
    ;
    assert(tile_v_start(width, height, n, m, j, i) + (r / 2) * hw + c / 2 == plane + plane / 4 + fu);
    assert(tile[pix] == tile_byte(old, frame, width, height, n, m, j, i, pix));
    assert(tile[sp + tu] == tile_byte(old, frame, width, height, n, m, j, i, sp + tu));
    assert(tile[sp + sp / 4 + tu] == tile_byte(old, frame, width, height, n, m, j, i, sp + sp / 4 + tu));
    assert(plane + plane / 4 + plane / 4 <= frame.len());
}


/// End to end, the browser shows the screen: a message whose stream
/// decompresses to a tile cut (with even sides) from a frame of at least
/// `width * height * 3 / 2` bytes into a fresh tile buffer decodes on the
/// browser, and each byte of the decoded RGBA tile at pixel `(c, r)` is that
/// of the whole frame's RGBA image at pixel `(i * sw + c, j * sh + r)`.
pub proof fn law_browser_shows_the_screen(
    packet: Seq<u8>,
    tile: Seq<u8>,
    old: Seq<u8>,
    frame: Seq<u8>,
    width: int,
    height: int,
    n: int,
    m: int,
    j: int,
    i: int,
    r: int,
    c: int,
    ch: int,
)
    requires
        n > 0,
        m > 0,
        width >= 0,
        height >= 0,
        0 <= j < m,
        0 <= i < n,
        tile_w(width, n) % 2 == 0,
        tile_h(height, m) % 2 == 0,
        4 * tile_plane(width, height, n, m) <= usize::MAX,
        old.len() == tile_buffer_len(width, height, n, m),
        frame.len() >= width * height * 3 / 2,
        tile_copied(tile, old, frame, width, height, n, m, j, i),
        inflated(packet) == Some(tile),
        0 <= r < tile_h(height, m),
        0 <= c < tile_w(width, n),
        0 <= ch < 4,
    ensures
        spec_decode_tile(packet, tile_w(width, n), tile_h(height, m)) matches Some(img) && img[4 * (r
            * tile_w(width, n) + c) + ch] == frame_rgba_byte(
            frame,
            width,
            height,
            4 * ((j * tile_h(height, m) + r) * width + (i * tile_w(width, n) + c)) + ch,
        ),
{
    let sw = tile_w(width, n);
    let sh = tile_h(height, m);
    let a = sw / 2;
    let b = sh / 2;
    let sp = tile_plane(width, height, n, m);
    assert(sw >= 0 && sh >= 0) by (nonlinear_arith)
        requires n > 0, m > 0, width >= 0, height >= 0, sw == width / n, sh == height / m;
    assert(sw == 2 * a && sh == 2 * b && a >= 1 && b >= 1);
    assert(sp == 4 * (a * b)) by (nonlinear_arith)
        requires sp == sw * sh, sw == 2 * a, sh == 2 * b;
    assert(luma_len(sw, sh) == sp);
    assert(tile.len() == 6 * (a * b));
    assert(chroma_index(sw, sh - 1, sw - 1) == (b - 1) * a + (a - 1));
    assert((b - 1) * a + (a - 1) < a * b) by (nonlinear_arith)
        requires a >= 1, b >= 1;
    assert(sw * sh == sp);
    assert(tile_yuv_ok(tile.len() as int, sw, sh));
    law_tile_round_trip(packet, tile, sw, sh);
    law_tile_colours_match_frame(tile, old, frame, width, height, n, m, j, i, r, c, ch);
}

} // verus!
