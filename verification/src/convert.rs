//! Colour conversion of decoded tiles: planar I420 (YUV 4:2:0) to RGBA.

use vstd::prelude::*;
use vstd::arithmetic::div_mod::lemma_fundamental_div_mod_converse;

verus! {

/// `x` limited to `0..=255`.
pub open spec fn spec_clamp(x: int) -> u8 {
    if x > 255 {
        255u8
    } else if x < 0 {
        0u8
    } else {
        x as u8
    }
}

/// Limits `x` to `0..=255`.
pub fn clamp(x: i32) -> (r: u8)
    ensures
        r == spec_clamp(x as int),
{
    x.min(255).max(0) as u8
}

/// Channel `c` (0 red, 1 green, 2 blue, 3 alpha) of the RGBA pixel for luma
/// `y` and chroma `u`, `v`, in 8-bit fixed point (products floored by 256).
pub open spec fn rgba_channel(c: int, y: u8, u: u8, v: u8) -> u8 {
    let cu = u - 128;
    let cv = v - 128;
    if c == 0 {
        spec_clamp(y + (cv * 359) / 256)
    } else if c == 1 {
        spec_clamp(y - (cu * 88) / 256 - (cv * 182) / 256)
    } else if c == 2 {
        spec_clamp(y + (cu * 453) / 256)
    } else {
        255u8
    }
}

/// Index into the chroma planes of the pixel in row `i`, column `j`.
pub open spec fn chroma_index(width: int, i: int, j: int) -> int {
    (i / 2) * (width / 2) + j / 2
}

/// Byte `q` of the RGBA image converted from the planes `sy`, `su`, `sv` of a
/// `width` pixels wide I420 image.
pub open spec fn rgba_byte(width: int, sy: Seq<u8>, su: Seq<u8>, sv: Seq<u8>, q: int) -> u8 {
    let pix = q / 4;
    let uvi = chroma_index(width, pix / width, pix % width);
    rgba_channel(q % 4, sy[pix], su[uvi], sv[uvi])
}

/// The planes are large enough for a `width` by `height` image, and the RGBA
/// output fits in `dest_len` bytes.
pub open spec fn i420_fits(width: int, height: int, y_len: int, u_len: int, v_len: int, dest_len: int) -> bool {
    width > 0 && height > 0 ==> {
        &&& y_len >= width * height
        &&& u_len > chroma_index(width, height - 1, width - 1)
        &&& v_len > chroma_index(width, height - 1, width - 1)
        &&& dest_len >= 4 * (width * height)
    }
}

proof fn lemma_shift_is_floor(x: i32)
    ensures
        (x >> 8) as int == x / 256,
{
    assert((x >> 8) as int == x / 256) by (bit_vector);
}

proof fn lemma_pixel_layout(width: int, height: int, i: int, j: int, c: int)
    requires
        0 <= i < height,
        0 <= j < width,
        0 <= c < 4,
    ensures
        0 <= i * width + j < width * height,
        (4 * (i * width + j) + c) / 4 == i * width + j,
        (4 * (i * width + j) + c) % 4 == c,
        (i * width + j) / width == i,
        (i * width + j) % width == j,
        0 <= chroma_index(width, i, j) <= chroma_index(width, height - 1, width - 1),
{
    assert(0 <= i * width + j < width * height) by (nonlinear_arith)
        requires
            0 <= i < height,
            0 <= j < width,
    ;
    lemma_fundamental_div_mod_converse(4 * (i * width + j) + c, 4, i * width + j, c);
    lemma_fundamental_div_mod_converse(i * width + j, width, i, j);
    assert(0 <= chroma_index(width, i, j) <= chroma_index(width, height - 1, width - 1)) by (nonlinear_arith)
        requires
            0 <= i < height,
            0 <= j < width,
    {
        assert(i / 2 <= (height - 1) / 2);
        assert(j / 2 <= (width - 1) / 2);
        assert(0 <= width / 2);
        assert((i / 2) * (width / 2) <= ((height - 1) / 2) * (width / 2));
    }
}

/// Clamping is the identity on `0..=255`, never decreases, and stays in
/// `0..=255` (so it maps everything below 0 to 0 and above 255 to 255).
pub proof fn law_clamp(x: int, y: int)
    ensures
        0 <= x <= 255 ==> spec_clamp(x) == x,
        x <= y ==> spec_clamp(x) <= spec_clamp(y),
        x < 0 ==> spec_clamp(x) == 0,
        x > 255 ==> spec_clamp(x) == 255,
{
}

proof fn lemma_floor_mono(a: int, b: int, k: int)
    requires
        a <= b,
        k >= 0,
    ensures
        (a * k) / 256 <= (b * k) / 256,
{
    assert(a * k <= b * k) by (nonlinear_arith)
        requires a <= b, k >= 0;
    vstd::arithmetic::div_mod::lemma_div_is_ordered(a * k, b * k, 256);
}

/// How each channel depends on the samples: red depends on luma and V only
/// and grows with both; blue depends on luma and U only and grows with both;
/// green grows with luma and shrinks as U or V grow; alpha is opaque; a
/// pixel with neutral chroma (U = V = 128) is the grey of its luma.
pub proof fn law_rgba_channels(y: u8, y2: u8, u: u8, u2: u8, v: u8, v2: u8)
    ensures
        rgba_channel(0, y, u, v) == rgba_channel(0, y, u2, v),
        v <= v2 ==> rgba_channel(0, y, u, v) <= rgba_channel(0, y, u, v2),
        y <= y2 ==> rgba_channel(0, y, u, v) <= rgba_channel(0, y2, u, v),
        rgba_channel(2, y, u, v) == rgba_channel(2, y, u, v2),
        u <= u2 ==> rgba_channel(2, y, u, v) <= rgba_channel(2, y, u2, v),
        y <= y2 ==> rgba_channel(2, y, u, v) <= rgba_channel(2, y2, u, v),
        u <= u2 ==> rgba_channel(1, y, u2, v) <= rgba_channel(1, y, u, v),
        v <= v2 ==> rgba_channel(1, y, u, v2) <= rgba_channel(1, y, u, v),
        y <= y2 ==> rgba_channel(1, y, u, v) <= rgba_channel(1, y2, u, v),
        rgba_channel(3, y, u, v) == 255,
        rgba_channel(0, y, 128, 128) == y,
        rgba_channel(1, y, 128, 128) == y,
        rgba_channel(2, y, 128, 128) == y,
{
    if v <= v2 {
        lemma_floor_mono(v - 128, v2 - 128, 359);
        lemma_floor_mono(v - 128, v2 - 128, 182);
    }
    if u <= u2 {
        lemma_floor_mono(u - 128, u2 - 128, 453);
        lemma_floor_mono(u - 128, u2 - 128, 88);
    }
    law_clamp(y + ((v - 128) * 359) / 256, y + ((v2 - 128) * 359) / 256);
    law_clamp(y + ((v - 128) * 359) / 256, y2 + ((v - 128) * 359) / 256);
    law_clamp(y + ((u - 128) * 453) / 256, y + ((u2 - 128) * 453) / 256);
    law_clamp(y + ((u - 128) * 453) / 256, y2 + ((u - 128) * 453) / 256);
    law_clamp(y - ((u2 - 128) * 88) / 256 - ((v - 128) * 182) / 256, y - ((u - 128) * 88) / 256 - ((v - 128) * 182) / 256);
    law_clamp(y - ((u - 128) * 88) / 256 - ((v2 - 128) * 182) / 256, y - ((u - 128) * 88) / 256 - ((v - 128) * 182) / 256);
    law_clamp(y - ((u - 128) * 88) / 256 - ((v - 128) * 182) / 256, y2 - ((u - 128) * 88) / 256 - ((v - 128) * 182) / 256);
}

/// The channels' fixed-point formulas: with `cu = U - 128`, `cv = V - 128`
/// and products floored by 256, red is `Y + 359 cv`, green
/// `Y - 88 cu - 182 cv`, blue `Y + 453 cu`, each limited to `0..=255`.
pub proof fn law_rgba_formulas(y: u8, u: u8, v: u8)
    ensures
        ({
            let r = y as int + ((v as int - 128) * 359) / 256;
            let g = y as int - ((u as int - 128) * 88) / 256 - ((v as int - 128) * 182) / 256;
            let b = y as int + ((u as int - 128) * 453) / 256;
            &&& rgba_channel(0, y, u, v) as int == if r < 0 { 0 } else if r > 255 { 255 } else { r }
            &&& rgba_channel(1, y, u, v) as int == if g < 0 { 0 } else if g > 255 { 255 } else { g }
            &&& rgba_channel(2, y, u, v) as int == if b < 0 { 0 } else if b > 255 { 255 } else { b }
        }),
{
}

/// The four pixels of each 2x2 block share one chroma sample, and in an
/// image of even width distinct blocks use distinct samples.
pub proof fn law_chroma_shared_by_blocks(width: int, a: int, b: int, a2: int, b2: int)
    requires
        width > 0,
        width % 2 == 0,
        0 <= a,
        0 <= a2,
        0 <= b < width / 2,
        0 <= b2 < width / 2,
    ensures
        chroma_index(width, 2 * a, 2 * b) == chroma_index(width, 2 * a + 1, 2 * b),
        chroma_index(width, 2 * a, 2 * b) == chroma_index(width, 2 * a, 2 * b + 1),
        chroma_index(width, 2 * a, 2 * b) == chroma_index(width, 2 * a + 1, 2 * b + 1),
        (a != a2 || b != b2) ==> chroma_index(width, 2 * a, 2 * b) != chroma_index(width, 2 * a2, 2 * b2),
{
    let hw = width / 2;
    assert(chroma_index(width, 2 * a, 2 * b) == a * hw + b);
    assert(chroma_index(width, 2 * a2, 2 * b2) == a2 * hw + b2);
    if a != a2 || b != b2 {
        if a == a2 {
        } else if a < a2 {
            assert(a * hw + b < a2 * hw + b2) by (nonlinear_arith)
                requires a < a2, 0 <= b < hw, 0 <= b2, hw > 0;
        } else {
            assert(a2 * hw + b2 < a * hw + b) by (nonlinear_arith)
                requires a2 < a, 0 <= b2 < hw, 0 <= b, hw > 0;
        }
    }
}

/// With neutral chroma everywhere, the RGBA image is the luma plane as grey:
/// byte `4 * p + c` is the luma of pixel `p` for the colour channels and 255
/// for alpha.
pub proof fn law_grey_image(width: int, sy: Seq<u8>, su: Seq<u8>, sv: Seq<u8>, p: int, c: int)
    requires
        width > 0,
        0 <= p < sy.len(),
        0 <= c < 4,
        forall|k: int| 0 <= k < su.len() ==> su[k] == 128,
        forall|k: int| 0 <= k < sv.len() ==> sv[k] == 128,
        0 <= chroma_index(width, p / width, p % width) < su.len(),
        chroma_index(width, p / width, p % width) < sv.len(),
    ensures
        rgba_byte(width, sy, su, sv, 4 * p + c) == if c < 3 { sy[p] } else { 255u8 },
{
    lemma_fundamental_div_mod_converse(4 * p + c, 4, p, c);
    law_rgba_channels(sy[p], sy[p], 128, 128, 128, 128);
}

/// Converts a `width` by `height` I420 image, given as its three planes, to
/// RGBA, four bytes per pixel row by row, into the start of `dest`.
pub fn i420_to_rgba(width: usize, height: usize, sy: &[u8], su: &[u8], sv: &[u8], dest: &mut [u8])
    requires
        i420_fits(width as int, height as int, sy@.len() as int, su@.len() as int, sv@.len() as int, old(dest)@.len() as int),
    ensures
        final(dest)@.len() == old(dest)@.len(),
        forall|q: int| 0 <= q < 4 * (width * height) ==> #[trigger] final(dest)@[q] == rgba_byte(width as int, sy@, su@, sv@, q),
        forall|q: int| 4 * (width * height) <= q < old(dest)@.len() ==> #[trigger] final(dest)@[q] == old(dest)@[q],
{
    let ghost start = dest@;
    let dest_len = dest.len();
    let u_len = su.len();
    let v_len = sv.len();
    let y_len = sy.len();
    let uvw = width >> 1;
    assert(uvw == width / 2) by (bit_vector)
        requires uvw == width >> 1;
    if width == 0 || height == 0 {
        assert(width * height == 0) by (nonlinear_arith)
            requires width == 0 || height == 0;
        return;
    }
    let mut i: usize = 0;
    while i < height
        invariant
            0 < width,
            0 < height,
            i <= height,
            uvw == width / 2,
            i420_fits(width as int, height as int, sy@.len() as int, su@.len() as int, sv@.len() as int, start.len() as int),
            dest@.len() == start.len(),
            start.len() == dest_len,
            su@.len() == u_len,
            sv@.len() == v_len,
            sy@.len() == y_len,
            forall|q: int| 0 <= q < 4 * (i * width) ==> #[trigger] dest@[q] == rgba_byte(width as int, sy@, su@, sv@, q),
            forall|q: int| 4 * (i * width) <= q < start.len() ==> #[trigger] dest@[q] == start[q],
        decreases height - i,
    {
        assert(i * width < width * height) by (nonlinear_arith)
            requires i < height, 0 < width;
        let sw = i * width;
        let hi = i >> 1;
        assert(hi == i / 2) by (bit_vector)
            requires hi == i >> 1;
        assert(hi * uvw <= i * width) by (nonlinear_arith)
            requires hi == i / 2, uvw == width / 2, 0 < width;
        let t = hi * uvw;
        let mut j: usize = 0;
        while j < width
            invariant
                0 < width,
                0 < height,
                i < height,
                j <= width,
                uvw == width / 2,
                sw == i * width,
                t == (i / 2) * (width / 2),
                i420_fits(width as int, height as int, sy@.len() as int, su@.len() as int, sv@.len() as int, start.len() as int),
                dest@.len() == start.len(),
                start.len() == dest_len,
                su@.len() == u_len,
                sv@.len() == v_len,
                sy@.len() == y_len,
                forall|q: int| 0 <= q < 4 * (i * width + j) ==> #[trigger] dest@[q] == rgba_byte(width as int, sy@, su@, sv@, q),
                forall|q: int| 4 * (i * width + j) <= q < start.len() ==> #[trigger] dest@[q] == start[q],
            decreases width - j,
        {
            proof {
                lemma_pixel_layout(width as int, height as int, i as int, j as int, 0);
                lemma_pixel_layout(width as int, height as int, i as int, j as int, 1);
                lemma_pixel_layout(width as int, height as int, i as int, j as int, 2);
                lemma_pixel_layout(width as int, height as int, i as int, j as int, 3);
            }
            let rgbstart = sw + j;
            let hj = j >> 1;
            assert(hj == j / 2) by (bit_vector)
                requires hj == j >> 1;
            let uvi = t + hj;
            let y = sy[rgbstart] as i32;
            let u = su[uvi] as i32 - 128;
            let v = sv[uvi] as i32 - 128;
            let rgba = rgbstart * 4;
            let vr = v * 359;
            let ug = u * 88;
            let vg = v * 182;
            let ub = u * 453;
            proof {
                lemma_shift_is_floor(vr);
                lemma_shift_is_floor(ug);
                lemma_shift_is_floor(vg);
                lemma_shift_is_floor(ub);
            }
            dest[rgba] = clamp(y + (vr >> 8));
            dest[rgba + 1] = clamp(y - (ug >> 8) - (vg >> 8));
            dest[rgba + 2] = clamp(y + (ub >> 8));
            dest[rgba + 3] = 0xff;
            proof {
                let ghost base = 4 * (i * width + j);
                assert forall|q: int| 0 <= q < base + 4 implies #[trigger] dest@[q] == rgba_byte(width as int, sy@, su@, sv@, q) by {
                    if q >= base {
                        let c = q - base;
                        lemma_pixel_layout(width as int, height as int, i as int, j as int, c);
                    }
                }
                assert(4 * (i * width + (j + 1)) == base + 4);
            }
            j = j + 1;
        }
        assert(i * width + width == (i + 1) * width) by (nonlinear_arith);
        i = i + 1;
    }
}

} // verus!
