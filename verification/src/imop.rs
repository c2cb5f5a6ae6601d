//! Tiling of captured frames: an I420 frame is cut into `m` rows by `n`
//! columns of tiles, each kept as its own small I420 image.

use vstd::prelude::*;
use vstd::arithmetic::div_mod::{lemma_fundamental_div_mod, lemma_fundamental_div_mod_converse};

verus! {

/// Width of a tile.
pub open spec fn tile_w(width: int, n: int) -> int {
    width / n
}

/// Height of a tile.
pub open spec fn tile_h(height: int, m: int) -> int {
    height / m
}

/// Size of a tile's luma plane.
pub open spec fn tile_plane(width: int, height: int, n: int, m: int) -> int {
    tile_w(width, n) * tile_h(height, m)
}

/// Number of chroma rows a tile takes from the frame: one per even luma row.
pub open spec fn uv_rows(height: int, m: int) -> int {
    (tile_h(height, m) + 1) / 2
}

/// Position in the frame's luma plane of the first pixel of the tile in tile
/// row `j`, tile column `i`.
pub open spec fn tile_y_start(width: int, height: int, n: int, m: int, j: int, i: int) -> int {
    (j * tile_h(height, m)) * width + i * tile_w(width, n)
}

/// Position in the frame of the tile's first U sample.
pub open spec fn tile_u_start(width: int, height: int, n: int, m: int, j: int, i: int) -> int {
    width * height + ((j * tile_h(height, m)) / 2) * (width / 2) + (i * tile_w(width, n)) / 2
}

/// Position in the frame of the tile's first V sample.
pub open spec fn tile_v_start(width: int, height: int, n: int, m: int, j: int, i: int) -> int {
    width * height + (width * height) / 4 + ((j * tile_h(height, m)) / 2) * (width / 2) + (i
        * tile_w(width, n)) / 2
}

/// Index of the tile in tile row `j`, tile column `i`.
pub open spec fn slot(n: int, j: int, i: int) -> int {
    j * n + i
}

/// Byte `p` of the tile in tile row `j`, column `i` after a split of the
/// frame `src` into a tile buffer that held `old`: its luma plane, then the
/// first quarter-plane of U rows, then the V rows after another
/// quarter-plane; bytes past the rows copied keep their old value.
pub open spec fn tile_byte(
    old: Seq<u8>,
    src: Seq<u8>,
    width: int,
    height: int,
    n: int,
    m: int,
    j: int,
    i: int,
    p: int,
) -> u8 {
    let sw = tile_w(width, n);
    let sp = tile_plane(width, height, n, m);
    let sw2 = sw / 2;
    let hw = width / 2;
    let run = uv_rows(height, m) * sw2;
    if p < sp {
        src[tile_y_start(width, height, n, m, j, i) + (p / sw) * width + p % sw]
    } else if sp <= p < sp + run {
        let q = p - sp;
        src[tile_u_start(width, height, n, m, j, i) + (q / sw2) * hw + q % sw2]
    } else if sp + sp / 4 <= p < sp + sp / 4 + run {
        let q = p - sp - sp / 4;
        src[tile_v_start(width, height, n, m, j, i) + (q / sw2) * hw + q % sw2]
    } else {
        old[p]
    }
}

/// `new` is the tile buffer `old` with the tile in row `j`, column `i` of
/// `src` copied in.
pub open spec fn tile_copied(
    new: Seq<u8>,
    old: Seq<u8>,
    src: Seq<u8>,
    width: int,
    height: int,
    n: int,
    m: int,
    j: int,
    i: int,
) -> bool {
    &&& new.len() == old.len()
    &&& forall|p: int|
        0 <= p < old.len() ==> #[trigger] new[p] == tile_byte(old, src, width, height, n, m, j, i, p)
}

/// Every byte that the split reads and writes for the tile in row `j`,
/// column `i` lies within the frame of `src_len` bytes and the tile buffer of
/// `img_len` bytes (for a tile of no rows nothing is read or written, but
/// its frame offsets are still computed and must fit in `usize`).
pub open spec fn tile_fits(
    src_len: int,
    img_len: int,
    width: int,
    height: int,
    n: int,
    m: int,
    j: int,
    i: int,
) -> bool {
    let sw = tile_w(width, n);
    let sh = tile_h(height, m);
    let sp = tile_plane(width, height, n, m);
    let sw2 = sw / 2;
    let hw = width / 2;
    let last_uv = (sh - 1) / 2;
    &&& sh == 0 ==> tile_v_start(width, height, n, m, j, i) <= usize::MAX
    &&& sh > 0 ==> {
        &&& sp + sp / 4 <= img_len
        &&& (last_uv + 1) * sw2 <= sp / 4
        &&& (last_uv + 1) * sw2 <= img_len - sp - sp / 4
        &&& tile_y_start(width, height, n, m, j, i) + (sh - 1) * width + sw <= src_len
        &&& tile_u_start(width, height, n, m, j, i) + last_uv * hw + sw2 <= src_len
        &&& tile_v_start(width, height, n, m, j, i) + last_uv * hw + sw2 <= src_len
    }
}

/// What a split of a frame of `src_len` bytes into `subimages` needs: a
/// non-zero grid, a slot for every tile, every present tile buffer and the
/// frame large enough for that tile, and a frame area that fits in `usize`.
pub open spec fn split_args_ok(
    src_len: int,
    subimages: Seq<Option<Vec<u8>>>,
    width: int,
    height: int,
    n: int,
    m: int,
) -> bool {
    &&& n > 0
    &&& m > 0
    &&& width * height <= usize::MAX
    &&& subimages.len() >= n * m
    &&& forall|j: int, i: int|
        0 <= j < m && 0 <= i < n ==> (#[trigger] subimages[slot(n, j, i)] matches Some(img)
            ==> tile_fits(src_len, img@.len() as int, width, height, n, m, j, i))
}

/// The slot of the tile in row `j`, column `i` after the split: absent if it
/// was absent, else the old buffer with the tile copied in.
pub open spec fn tile_result(
    old: Option<Vec<u8>>,
    new: Option<Vec<u8>>,
    src: Seq<u8>,
    width: int,
    height: int,
    n: int,
    m: int,
    j: int,
    i: int,
) -> bool {
    match old {
        None => new is None,
        Some(a) => match new {
            Some(b) => tile_copied(b@, a@, src, width, height, n, m, j, i),
            None => false,
        },
    }
}

/// The slots `new` after a split of the frame `src` into the slots `old`:
/// same length, each tile slot as [`tile_result`] says, the slots past the
/// `n * m` tiles unchanged.
pub open spec fn split_done(
    old: Seq<Option<Vec<u8>>>,
    new: Seq<Option<Vec<u8>>>,
    src: Seq<u8>,
    width: int,
    height: int,
    n: int,
    m: int,
) -> bool {
    &&& new.len() == old.len()
    &&& forall|k: int| n * m <= k < old.len() ==> #[trigger] new[k] == old[k]
    &&& forall|j: int, i: int|
        0 <= j < m && 0 <= i < n ==> #[trigger] tile_result(
            old[slot(n, j, i)],
            new[slot(n, j, i)],
            src,
            width,
            height,
            n,
            m,
            j,
            i,
        )
}

/// Copies `len` bytes of `src` from `from` into `dst` at `at`.
fn copy_run(dst: &mut Vec<u8>, at: usize, src: &Vec<u8>, from: usize, len: usize)
    requires
        at + len <= old(dst)@.len(),
        from + len <= src@.len(),
    ensures
        final(dst)@.len() == old(dst)@.len(),
        forall|p: int|
            0 <= p < old(dst)@.len() ==> #[trigger] final(dst)@[p] == if at <= p < at + len {
                src@[from + p - at]
            } else {
                old(dst)@[p]
            },
{
    let ghost start = dst@;
    let dst_len = dst.len();
    let src_len = src.len();
    let mut c: usize = 0;
    while c < len
        invariant
            c <= len,
            dst_len == start.len(),
            src_len == src@.len(),
            at + len <= start.len(),
            from + len <= src@.len(),
            dst@.len() == start.len(),
            forall|p: int|
                0 <= p < start.len() ==> #[trigger] dst@[p] == if at <= p < at + c {
                    src@[from + p - at]
                } else {
                    start[p]
                },
        decreases len - c,
    {
        dst.set(at + c, src[from + c]);
        c = c + 1;
    }
}


/// Whether byte `p` of a tile buffer has been written once the first `rows`
/// luma rows of the tile have been copied.
pub open spec fn tile_written(width: int, height: int, n: int, m: int, rows: int, p: int) -> bool {
    let sw = tile_w(width, n);
    let sp = tile_plane(width, height, n, m);
    let run = ((rows + 1) / 2) * (sw / 2);
    ||| p < rows * sw
    ||| sp <= p < sp + run
    ||| sp + sp / 4 <= p < sp + sp / 4 + run
}

proof fn lemma_grid(width: int, height: int, n: int, m: int, j: int, i: int)
    requires
        n > 0,
        m > 0,
        0 <= j < m,
        0 <= i < n,
        width >= 0,
        height >= 0,
    ensures
        0 <= j * tile_h(height, m),
        j * tile_h(height, m) + tile_h(height, m) <= height,
        0 <= i * tile_w(width, n),
        i * tile_w(width, n) + tile_w(width, n) <= width,
        0 <= tile_w(width, n),
        0 <= tile_h(height, m),
        (j * tile_h(height, m)) * width <= width * height,
        ((j * tile_h(height, m)) / 2) * (width / 2) <= (width * height) / 4,
        0 <= ((j * tile_h(height, m)) / 2) * (width / 2),
        tile_plane(width, height, n, m) >= 0,
        tile_w(width, n) * n <= width,
        tile_h(height, m) * m <= height,
{
    let sw = width / n;
    let sh = height / m;
    assert(0 <= sh && m * sh <= height && sh * m <= height) by (nonlinear_arith)
        requires m > 0, height >= 0, sh == height / m;
    assert(0 <= sw && n * sw <= width && sw * n <= width) by (nonlinear_arith)
        requires n > 0, width >= 0, sw == width / n;
    assert(0 <= j * sh && j * sh + sh <= height) by (nonlinear_arith)
        requires 0 <= j < m, 0 <= sh, m * sh <= height;
    assert(0 <= i * sw && i * sw + sw <= width) by (nonlinear_arith)
        requires 0 <= i < n, 0 <= sw, n * sw <= width;
    assert((j * sh) * width <= width * height) by (nonlinear_arith)
        requires 0 <= j * sh <= height, width >= 0;
    let a = (j * sh) / 2;
    assert(0 <= a * (width / 2) && a * (width / 2) <= (width * height) / 4) by (nonlinear_arith)
        requires a == (j * sh) / 2, 0 <= j * sh <= height, width >= 0,
    {
        assert(a <= height / 2);
        assert(a * (width / 2) <= (height / 2) * (width / 2));
        assert((height / 2) * (width / 2) * 4 <= width * height);
    }
    assert(sw * sh >= 0) by (nonlinear_arith)
        requires sw >= 0, sh >= 0;
}

/// Copies the tile in row `j`, column `i` of the frame `src` (`width` by
/// `height`, I420) into the tile buffer `img`.
fn split_tile(
    src: &Vec<u8>,
    img: &mut Vec<u8>,
    width: usize,
    height: usize,
    n: usize,
    m: usize,
    j: usize,
    i: usize,
)
    requires
        n > 0,
        m > 0,
        j < m,
        i < n,
        width * height <= usize::MAX,
        tile_fits(src@.len() as int, old(img)@.len() as int, width as int, height as int, n as int, m as int, j as int, i as int),
    ensures
        tile_copied(final(img)@, old(img)@, src@, width as int, height as int, n as int, m as int, j as int, i as int),
{
    let ghost old_img = img@;
    let ghost (w, h, gn, gm, gj, gi) = (width as int, height as int, n as int, m as int, j as int, i as int);
    proof {
        lemma_grid(w, h, gn, gm, gj, gi);
    }
    let src_len = src.len();
    let plane_size = width * height;
    let subimage_width = width / n;
    let subimage_height = height / m;
    assert(subimage_width * subimage_height <= plane_size) by (nonlinear_arith)
        requires
            subimage_width * n <= width,
            subimage_height * m <= height,
            n > 0, m > 0,
            subimage_width >= 0, subimage_height >= 0,
            plane_size == width * height,
    {
        assert(subimage_width <= width);
        assert(subimage_height <= height);
    }
    let subplane_size = subimage_width * subimage_height;
    let sw2 = subimage_width / 2;
    let row_top = j * subimage_height;
    proof {
        let sh = subimage_height as int;
        if sh > 0 {
            assert((sh - 1) * w >= 0) by (nonlinear_arith)
                requires sh > 0, w >= 0;
            assert(tile_y_start(w, h, gn, gm, gj, gi) <= src@.len());
        } else {
            assert(j * subimage_height == 0) by (nonlinear_arith)
                requires subimage_height == 0;
            assert(row_top * width == 0) by (nonlinear_arith)
                requires row_top == 0;
        }
    }
    let y_start = row_top * width + (i * subimage_width);
    proof {
        let sh = subimage_height as int;
        assert(((sh - 1) / 2) * (w / 2) >= 0 || sh == 0) by (nonlinear_arith)
            requires sh >= 0, w >= 0;
        assert(tile_v_start(w, h, gn, gm, gj, gi) <= usize::MAX);
    }
    let u_start = plane_size + (row_top / 2) * (width / 2) + ((i * subimage_width) / 2);
    let v_start = plane_size + (plane_size / 4) + (row_top / 2) * (width / 2) + ((i * subimage_width) / 2);
    if subimage_height == 0 {
        assert(tile_plane(w, h, gn, gm) == 0) by (nonlinear_arith)
            requires tile_h(h, gm) == 0;
        assert(uv_rows(h, gm) * (tile_w(w, gn) / 2) == 0) by (nonlinear_arith)
            requires tile_h(h, gm) == 0;
        assert forall|p: int| 0 <= p < old_img.len() implies #[trigger] img@[p] == tile_byte(old_img, src@, w, h, gn, gm, gj, gi, p) by {}
        return;
    }
    let img_len = img.len();
    proof {
        assert(0 * tile_w(w, gn) == 0 && ((0 + 1) / 2) * (tile_w(w, gn) / 2) == 0) by (nonlinear_arith);
        assert forall|p: int| 0 <= p < old_img.len() implies !tile_written(w, h, gn, gm, 0, p) by {}
    }
    let mut row: usize = 0;
    while row < subimage_height
        invariant
            row <= subimage_height,
            subimage_height == h / gm,
            subimage_width == w / gn,
            subimage_height > 0,
            subplane_size == subimage_width * subimage_height,
            sw2 == subimage_width / 2,
            y_start == tile_y_start(w, h, gn, gm, gj, gi),
            u_start == tile_u_start(w, h, gn, gm, gj, gi),
            v_start == tile_v_start(w, h, gn, gm, gj, gi),
            tile_fits(src_len as int, img_len as int, w, h, gn, gm, gj, gi),
            src_len == src@.len(),
            img_len == img@.len(),
            img@.len() == old_img.len(),
            w == width,
            width >= 0,
            forall|p: int|
                0 <= p < old_img.len() ==> #[trigger] img@[p] == if tile_written(w, h, gn, gm, row as int, p) {
                    tile_byte(old_img, src@, w, h, gn, gm, gj, gi, p)
                } else {
                    old_img[p]
                },
        decreases subimage_height - row,
    {
        let ghost before = img@;
        let ghost r = row as int;
        let ghost sw = subimage_width as int;
        let ghost sh = subimage_height as int;
        let ghost sp = subplane_size as int;
        assert(r * width + sw <= (sh - 1) * width + sw) by (nonlinear_arith)
            requires r <= sh - 1, width >= 0;
        assert(r * sw + sw <= sp) by (nonlinear_arith)
            requires r + 1 <= sh, sw >= 0, sp == sw * sh;
        let y_offset = y_start + row * width;
        copy_run(img, row * subimage_width, src, y_offset, subimage_width);
        let ghost after_y = img@;
        proof {
            assert((r + 1) * sw == r * sw + sw) by (nonlinear_arith);
            assert(sp <= sp + sp / 4);
        }
        if row % 2 == 0 {
            let uv_row = row / 2;
            let ghost ur = uv_row as int;
            let ghost last_uv = (sh - 1) / 2;
            let ghost hw = (width / 2) as int;
            let ghost s2 = sw2 as int;
            assert(ur * hw + s2 <= last_uv * hw + s2) by (nonlinear_arith)
                requires ur <= last_uv, hw >= 0;
            assert(ur * s2 + s2 <= (last_uv + 1) * s2) by (nonlinear_arith)
                requires ur <= last_uv, s2 >= 0;
            let u_offset = u_start + uv_row * (width / 2);
            let v_offset = v_start + uv_row * (width / 2);
            copy_run(img, subplane_size + uv_row * sw2, src, u_offset, sw2);
            copy_run(img, subplane_size + subplane_size / 4 + uv_row * sw2, src, v_offset, sw2);
            proof {
                assert((ur + 1) * s2 == ur * s2 + s2) by (nonlinear_arith);
                assert((r + 2) / 2 == ur + 1);
                assert((r + 1) / 2 == ur);
                assert forall|p: int| 0 <= p < old_img.len() implies #[trigger] img@[p] == if tile_written(w, h, gn, gm, r + 1, p) {
                    tile_byte(old_img, src@, w, h, gn, gm, gj, gi, p)
                } else {
                    old_img[p]
                } by {
                    if r * sw <= p < r * sw + sw {
                        lemma_fundamental_div_mod_converse(p, sw, r, p - r * sw);
                    } else if sp + ur * s2 <= p < sp + ur * s2 + s2 {
                        lemma_fundamental_div_mod_converse(p - sp, s2, ur, p - sp - ur * s2);
                    } else if sp + sp / 4 + ur * s2 <= p < sp + sp / 4 + ur * s2 + s2 {
                        lemma_fundamental_div_mod_converse(p - sp - sp / 4, s2, ur, p - sp - sp / 4 - ur * s2);
                    }
                }
            }
        } else {
            proof {
                assert((r + 2) / 2 == (r + 1) / 2);
                assert forall|p: int| 0 <= p < old_img.len() implies #[trigger] img@[p] == if tile_written(w, h, gn, gm, r + 1, p) {
                    tile_byte(old_img, src@, w, h, gn, gm, gj, gi, p)
                } else {
                    old_img[p]
                } by {
                    if r * sw <= p < r * sw + sw {
                        lemma_fundamental_div_mod_converse(p, sw, r, p - r * sw);
                    }
                }
            }
        }
        row = row + 1;
    }
    assert(subimage_height as int * subimage_width == subplane_size) by (nonlinear_arith)
        requires subplane_size == subimage_width * subimage_height;
}


proof fn lemma_slot_bounds(n: int, m: int, j: int, i: int)
    requires
        0 <= j < m,
        0 <= i < n,
    ensures
        j * n <= slot(n, j, i) < j * n + n,
        j * n + n <= n * m,
        (j + 1) * n == j * n + n,
        0 <= j * n,
{
    assert(j * n + n <= n * m) by (nonlinear_arith)
        requires 0 <= j < m, 0 <= i < n;
    assert((j + 1) * n == j * n + n) by (nonlinear_arith);
    assert(0 <= j * n) by (nonlinear_arith)
        requires 0 <= j, 0 <= i < n;
}

proof fn lemma_slot_order(n: int, j1: int, i1: int, j2: int, i2: int)
    requires
        0 <= i1 < n,
        0 <= i2 < n,
        j1 < j2,
    ensures
        slot(n, j1, i1) < slot(n, j2, i2),
{
    assert(j1 * n + n <= j2 * n) by (nonlinear_arith)
        requires j1 < j2, n > 0;
}

/// Cuts the I420 frame `i420_data` (`width` by `height`) into `m` rows by `n`
/// columns of tiles and copies each tile, in row-major order, into the
/// matching present buffer of `subimages`; absent buffers are skipped.
pub fn split_i420_into_subimages(
    i420_data: &Vec<u8>,
    subimages: &mut Vec<Option<Vec<u8>>>,
    width: usize,
    height: usize,
    n: usize,
    m: usize,
)
    requires
        split_args_ok(i420_data@.len() as int, old(subimages)@, width as int, height as int, n as int, m as int),
    ensures
        split_done(old(subimages)@, final(subimages)@, i420_data@, width as int, height as int, n as int, m as int),
{
    let ghost old_subs = subimages@;
    let ghost (w, h, gn, gm) = (width as int, height as int, n as int, m as int);
    let total = subimages.len();
    let mut k: usize = 0;
    let mut j: usize = 0;
    while j < m
        invariant
            split_args_ok(i420_data@.len() as int, old_subs, w, h, gn, gm),
            w == width, h == height, gn == n, gm == m,
            j <= m,
            k == j * n,
            total == old_subs.len(),
            subimages@.len() == old_subs.len(),
            forall|q: int| k <= q < old_subs.len() ==> #[trigger] subimages@[q] == old_subs[q],
            forall|j2: int, i2: int|
                0 <= j2 < j && 0 <= i2 < n ==> #[trigger] tile_result(
                    old_subs[slot(gn, j2, i2)],
                    subimages@[slot(gn, j2, i2)],
                    i420_data@,
                    w, h, gn, gm,
                    j2,
                    i2,
                ),
        decreases m - j,
    {
        proof { lemma_slot_bounds(gn, gm, j as int, 0); }
        let mut i: usize = 0;
        while i < n
            invariant
                split_args_ok(i420_data@.len() as int, old_subs, w, h, gn, gm),
                w == width, h == height, gn == n, gm == m,
                j < m,
                i <= n,
                k == j * n + i,
                j * n + n <= n * m,
                total == old_subs.len(),
                subimages@.len() == old_subs.len(),
                forall|q: int| k <= q < old_subs.len() ==> #[trigger] subimages@[q] == old_subs[q],
                forall|j2: int, i2: int|
                    (0 <= j2 < j && 0 <= i2 < n) || (j2 == j && 0 <= i2 < i) ==> #[trigger] tile_result(
                        old_subs[slot(gn, j2, i2)],
                        subimages@[slot(gn, j2, i2)],
                        i420_data@,
                        w, h, gn, gm,
                        j2,
                        i2,
                    ),
            decreases n - i,
        {
            let ghost prev = subimages@;
            let ghost s = slot(gn, j as int, i as int);
            assert(s == k);
            let ghost old_slot = old_subs[s];
            assert(prev[s] == old_slot);
            let taken = subimages[k].take();
            match taken {
                Some(mut img) => {
                    assert(tile_fits(i420_data@.len() as int, img@.len() as int, w, h, gn, gm, j as int, i as int));
                    split_tile(i420_data, &mut img, width, height, n, m, j, i);
                    subimages[k] = Some(img);
                },
                None => {},
            }
            proof {
                assert(tile_result(old_subs[s], subimages@[s], i420_data@, w, h, gn, gm, j as int, i as int));
                assert forall|j2: int, i2: int|
                    (0 <= j2 < j && 0 <= i2 < n) || (j2 == j && 0 <= i2 < i + 1) implies #[trigger] tile_result(
                        old_subs[slot(gn, j2, i2)],
                        subimages@[slot(gn, j2, i2)],
                        i420_data@,
                        w, h, gn, gm,
                        j2,
                        i2,
                    ) by {
                    if j2 == j && i2 == i {
                    } else {
                        if j2 < j {
                            lemma_slot_order(gn, j2, i2, j as int, i as int);
                        }
                        assert(slot(gn, j2, i2) != s);
                        assert(tile_result(old_subs[slot(gn, j2, i2)], prev[slot(gn, j2, i2)], i420_data@, w, h, gn, gm, j2, i2));
                    }
                }
            }
            k = k + 1;
            i = i + 1;
        }
        j = j + 1;
    }
    proof {
        assert(k == n * m) by (nonlinear_arith)
            requires k == j * n, j == m;
    }
}


/// Size of a tile buffer: a luma plane and two quarter-size chroma planes.
pub open spec fn tile_buffer_len(width: int, height: int, n: int, m: int) -> int {
    tile_plane(width, height, n, m) * 3 / 2
}

/// Makes the buffers for splitting a `width` by `height` frame into `m` rows
/// by `n` columns of tiles: returns the tile width and height and `n * m`
/// zeroed tile buffers, all present.
pub fn split_meta_info(width: usize, height: usize, n: usize, m: usize) -> (r: (
    usize,
    usize,
    Vec<Option<Vec<u8>>>,
))
    requires
        n > 0,
        m > 0,
        n * m <= usize::MAX,
        (width / n) * (height / m) * 3 <= usize::MAX,
    ensures
        r.0 == width / n,
        r.1 == height / m,
        r.2@.len() == n * m,
        forall|k: int|
            0 <= k < n * m ==> (#[trigger] r.2@[k] matches Some(b) && b@ == Seq::new(
                tile_buffer_len(width as int, height as int, n as int, m as int) as nat,
                |p: int| 0u8,
            )),
{
    let count = n * m;
    let mut subimages: Vec<Option<Vec<u8>>> = Vec::with_capacity(count);
    let subimage_width = width / n;
    let subimage_height = height / m;
    let len = subimage_width * subimage_height * 3 / 2;
    let mut k: usize = 0;
    while k < count
        invariant
            k <= count,
            count == n * m,
            len == tile_buffer_len(width as int, height as int, n as int, m as int),
            subimages@.len() == k,
            forall|q: int|
                0 <= q < k ==> (#[trigger] subimages@[q] matches Some(b) && b@ == Seq::new(
                    len as nat,
                    |p: int| 0u8,
                )),
        decreases count - k,
    {
        let buf = vec![0u8; len];
        assert(buf@ =~= Seq::new(len as nat, |p: int| 0u8));
        subimages.push(Some(buf));
        k = k + 1;
    }
    (subimage_width, subimage_height, subimages)
}


proof fn lemma_even_rows(height: int, m: int)
    requires
        m > 0,
        height >= 0,
        height % (2 * m) == 0,
    ensures
        tile_h(height, m) % 2 == 0,
        tile_h(height, m) == 0 ==> height == 0,
        tile_h(height, m) * m == height,
{
    let q = height / (2 * m);
    assert(height == q * (2 * m)) by (nonlinear_arith)
        requires m > 0, height % (2 * m) == 0, q == height / (2 * m);
    assert(height == (2 * q) * m + 0) by (nonlinear_arith)
        requires height == q * (2 * m);
    lemma_fundamental_div_mod_converse(height, m, 2 * q, 0);
    assert(q == 0 ==> height == 0) by (nonlinear_arith)
        requires height == q * (2 * m);
}

proof fn lemma_tile_fits_full_frame(src_len: int, width: int, height: int, n: int, m: int, j: int, i: int)
    requires
        n > 0,
        m > 0,
        width >= 0,
        height >= 0,
        0 <= j < m,
        0 <= i < n,
        width <= usize::MAX,
        tile_w(width, n) % 2 == 0,
        height % (2 * m) == 0,
        src_len >= width * height * 3 / 2,
    ensures
        tile_fits(src_len, tile_buffer_len(width, height, n, m), width, height, n, m, j, i),
{
    lemma_grid(width, height, n, m, j, i);
    let sw = tile_w(width, n);
    let sh = tile_h(height, m);
    lemma_even_rows(height, m);
    if sh == 0 {
        assert(width * height == 0) by (nonlinear_arith)
            requires height == 0;
        assert(j * sh == 0) by (nonlinear_arith)
            requires sh == 0;
        assert(tile_v_start(width, height, n, m, j, i) == (i * sw) / 2);
    }
    if sh > 0 {
        let a = sw / 2;
        let b = sh / 2;
        let plane = width * height;
        let hw = width / 2;
        assert(sw == 2 * a && sh == 2 * b && b >= 1 && a >= 0);
        let sp = tile_plane(width, height, n, m);
        assert(sp == 4 * (a * b)) by (nonlinear_arith)
            requires sp == sw * sh, sw == 2 * a, sh == 2 * b;
        assert(sp / 4 == a * b && sp * 3 / 2 == 6 * (a * b));
        assert((sh - 1) / 2 == b - 1);
        assert(((sh - 1) / 2 + 1) * (sw / 2) == a * b) by (nonlinear_arith)
            requires (sh - 1) / 2 == b - 1, sw / 2 == a;
        // luma rows
        assert(tile_y_start(width, height, n, m, j, i) + (sh - 1) * width + sw <= plane) by (nonlinear_arith)
            requires
                j * sh + sh <= height,
                i * sw + sw <= width,
                sh >= 1,
                width >= 0,
                tile_y_start(width, height, n, m, j, i) == (j * sh) * width + i * sw,
                plane == width * height,
        {
            assert((j * sh) * width + (sh - 1) * width == (j * sh + sh - 1) * width);
            assert((j * sh + sh - 1) * width <= (height - 1) * width);
            assert((height - 1) * width + width == height * width);
        }
        // chroma rows
        let off = ((j * sh) / 2) * hw + (i * sw) / 2 + (b - 1) * hw + a;
        assert(off <= plane / 4) by (nonlinear_arith)
            requires
                off == ((j * sh) / 2) * hw + (i * sw) / 2 + (b - 1) * hw + a,
                sh == 2 * b,
                sw == 2 * a,
                j * sh + sh <= height,
                i * sw + sw <= width,
                b >= 1,
                a >= 0,
                j >= 0,
                i >= 0,
                hw == width / 2,
                plane == width * height,
                width >= 0,
                height >= 0,
        {
            assert((j * sh) / 2 == j * b);
            assert((i * sw) / 2 == i * a);
            assert(j * b + b <= height / 2);
            assert(i * a + a <= hw);
            assert(j * b * hw + (b - 1) * hw == (j * b + b - 1) * hw);
            assert((j * b + b - 1) * hw <= (height / 2 - 1) * hw);
            assert((height / 2 - 1) * hw + hw == (height / 2) * hw);
            assert((height / 2) * hw * 4 <= plane);
        }
        assert(plane + plane / 4 + plane / 4 <= plane * 3 / 2);
    }
}

/// Buffers as [`split_meta_info`] makes them (present or taken out) receive a
/// split of any frame of at least `width * height * 3 / 2` bytes, when the
/// tiles have an even width and the frame's height is a multiple of twice the
/// number of tile rows.
pub proof fn law_fresh_buffers_take_a_full_frame(
    src_len: int,
    subimages: Seq<Option<Vec<u8>>>,
    width: int,
    height: int,
    n: int,
    m: int,
)
    requires
        n > 0,
        m > 0,
        0 <= width <= usize::MAX,
        height >= 0,
        width * height <= usize::MAX,
        tile_w(width, n) % 2 == 0,
        height % (2 * m) == 0,
        subimages.len() == n * m,
        forall|k: int|
            0 <= k < n * m ==> (#[trigger] subimages[k] matches Some(b) ==> b@.len()
                == tile_buffer_len(width, height, n, m)),
        src_len >= width * height * 3 / 2,
    ensures
        split_args_ok(src_len, subimages, width, height, n, m),
{
    assert forall|j: int, i: int|
        0 <= j < m && 0 <= i < n implies (#[trigger] subimages[slot(n, j, i)] matches Some(img)
            ==> tile_fits(src_len, img@.len() as int, width, height, n, m, j, i)) by {
        lemma_slot_bounds(n, m, j, i);
        lemma_tile_fits_full_frame(src_len, width, height, n, m, j, i);
    }
}


/// Where the browser draws tile `k` of a grid `n` tiles wide, tiles being
/// `sw` by `sh`: column `k % n`, row `k / n`, in pixels `(x, y)`.
pub fn tile_origin(k: usize, n: usize, sw: usize, sh: usize) -> (r: (usize, usize))
    requires
        n > 0,
        (k % n) * sw <= usize::MAX,
        (k / n) * sh <= usize::MAX,
    ensures
        r.0 == (k % n) * sw,
        r.1 == (k / n) * sh,
{
    ((k % n) * sw, (k / n) * sh)
}

/// The browser draws each tile where it was cut from the frame: for the tile
/// in row `j`, column `i`, the origin of its slot is column `i` and row `j`
/// of tiles, and its first luma sample in the frame is that pixel.
pub proof fn law_tile_drawn_where_cut(width: int, height: int, n: int, m: int, j: int, i: int)
    requires
        n > 0,
        m > 0,
        0 <= j < m,
        0 <= i < n,
    ensures
        slot(n, j, i) % n == i,
        slot(n, j, i) / n == j,
        tile_y_start(width, height, n, m, j, i) == ((slot(n, j, i) / n) * tile_h(height, m)) * width
            + (slot(n, j, i) % n) * tile_w(width, n),
{
    lemma_fundamental_div_mod_converse(slot(n, j, i), n, j, i);
}


proof fn lemma_wide_mul(a: usize, b: usize)
    ensures
        0 <= (a as int) * (b as int) <= 0xffff_ffff_ffff_ffff_ffff_ffff_ffff_ffffu128,
{
    assert(usize::MAX <= 0xffff_ffff_ffff_ffffu64);
    assert(0 <= (a as int) * (b as int) <= 0xffff_ffff_ffff_ffffu64 as int * 0xffff_ffff_ffff_ffffu64 as int)
        by (nonlinear_arith)
        requires a <= 0xffff_ffff_ffff_ffffu64, b <= 0xffff_ffff_ffff_ffffu64;
}

/// Tests [`tile_fits`] for the tile in row `j`, column `i`.
pub fn tile_fits_exec(
    src_len: usize,
    img_len: usize,
    width: usize,
    height: usize,
    n: usize,
    m: usize,
    j: usize,
    i: usize,
) -> (ok: bool)
    requires
        n > 0,
        m > 0,
        j < m,
        i < n,
    ensures
        ok == tile_fits(src_len as int, img_len as int, width as int, height as int, n as int, m as int, j as int, i as int),
{
    proof {
        lemma_grid(width as int, height as int, n as int, m as int, j as int, i as int);
    }
    let sw = width / n;
    let sh = height / m;
    if sh == 0 {
        proof {
            lemma_wide_mul(width, height);
            assert(j * sh == 0) by (nonlinear_arith)
                requires sh == 0;
            assert(((j * sh) / 2) * (width / 2) == 0) by (nonlinear_arith)
                requires j * sh == 0;
        }
        let area: u128 = (width as u128) * (height as u128);
        if area > usize::MAX as u128 {
            return false;
        }
        let v: u128 = area + area / 4 + ((i * sw) / 2) as u128;
        assert(v == tile_v_start(width as int, height as int, n as int, m as int, j as int, i as int));
        return v <= usize::MAX as u128;
    }
    let ghost (w, h, gn, gm, gj, gi) = (width as int, height as int, n as int, m as int, j as int, i as int);
    let top = j * sh;
    let left = i * sw;
    proof {
        lemma_wide_mul(width, height);
    }
    let plane: u128 = (width as u128) * (height as u128);
    if plane > usize::MAX as u128 {
        proof {
            assert(0 <= ((top / 2) as int) * ((width / 2) as int));
            assert(((sh - 1) / 2) * (width / 2) >= 0) by (nonlinear_arith)
                requires sh > 0;
        }
        return false;
    }
    proof {
        let gsw = sw as int;
        let gsh = sh as int;
        assert(gsw * gsh <= w * h) by (nonlinear_arith)
            requires gsw * gn <= w, gsh * gm <= h, gn > 0, gm > 0, gsw >= 0, gsh >= 0,
        {
            assert(gsw <= w);
            assert(gsh <= h);
        }
        assert(((gsh - 1) / 2 + 1) * (gsw / 2) <= gsw * gsh) by (nonlinear_arith)
            requires gsh > 0, gsw >= 0;
        assert((gsh - 1) * w <= w * h) by (nonlinear_arith)
            requires gsh <= h, gsh > 0, w >= 0;
        assert(((gsh - 1) / 2) * (w / 2) <= w * h) by (nonlinear_arith)
            requires gsh <= h, gsh > 0, w >= 0;
        assert(0 <= ((gsh - 1) / 2) * (w / 2)) by (nonlinear_arith)
            requires gsh > 0, w >= 0;
        assert(0 <= (gsh - 1) * w) by (nonlinear_arith)
            requires gsh > 0, w >= 0;
        assert(0 <= ((gsh - 1) / 2 + 1) * (gsw / 2)) by (nonlinear_arith)
            requires gsh > 0, gsw >= 0;
    }
    let sp: u128 = (sw as u128) * (sh as u128);
    let sw2: u128 = (sw / 2) as u128;
    let hw: u128 = (width / 2) as u128;
    let last_uv: u128 = ((sh - 1) / 2) as u128;
    let src: u128 = src_len as u128;
    let img: u128 = img_len as u128;
    let run: u128 = (last_uv + 1) * sw2;
    let ys: u128 = (top as u128) * (width as u128) + left as u128;
    let cs: u128 = ((top / 2) as u128) * hw + (left / 2) as u128;
    let rows: u128 = last_uv * hw;
    let us: u128 = plane + cs;
    let vs: u128 = plane + plane / 4 + cs;
    assert(ys == tile_y_start(w, h, gn, gm, gj, gi));
    assert(us == tile_u_start(w, h, gn, gm, gj, gi));
    assert(vs == tile_v_start(w, h, gn, gm, gj, gi));
    assert(sp == tile_plane(w, h, gn, gm));
    let ok = sp + sp / 4 <= img && run <= sp / 4 && run <= img - (sp + sp / 4)
        && ys + ((sh - 1) as u128) * (width as u128) + sw as u128 <= src
        && us + rows + sw2 <= src && vs + rows + sw2 <= src;
    ok
}

/// Tests [`split_args_ok`]: whether [`split_i420_into_subimages`] accepts a
/// frame of `src_len` bytes and these tile buffers.
pub fn split_fits(
    src_len: usize,
    subimages: &Vec<Option<Vec<u8>>>,
    width: usize,
    height: usize,
    n: usize,
    m: usize,
) -> (ok: bool)
    ensures
        ok == split_args_ok(src_len as int, subimages@, width as int, height as int, n as int, m as int),
{
    if n == 0 || m == 0 {
        return false;
    }
    proof {
        lemma_wide_mul(width, height);
        lemma_wide_mul(n, m);
    }
    let plane: u128 = (width as u128) * (height as u128);
    if plane > usize::MAX as u128 {
        return false;
    }
    if (subimages.len() as u128) < (n as u128) * (m as u128) {
        return false;
    }
    let total = subimages.len();
    let mut j: usize = 0;
    while j < m
        invariant
            total == subimages@.len(),
            n > 0,
            m > 0,
            j <= m,
            subimages@.len() >= n * m,
            forall|j2: int, i2: int|
                0 <= j2 < j && 0 <= i2 < n ==> (#[trigger] subimages@[slot(n as int, j2, i2)] matches Some(img)
                    ==> tile_fits(src_len as int, img@.len() as int, width as int, height as int, n as int, m as int, j2, i2)),
        decreases m - j,
    {
        let mut i: usize = 0;
        while i < n
            invariant
                total == subimages@.len(),
                n > 0,
                m > 0,
                j < m,
                i <= n,
                subimages@.len() >= n * m,
                forall|j2: int, i2: int|
                    ((0 <= j2 < j && 0 <= i2 < n) || (j2 == j && 0 <= i2 < i)) ==> (
                    #[trigger] subimages@[slot(n as int, j2, i2)] matches Some(img) ==> tile_fits(
                        src_len as int,
                        img@.len() as int,
                        width as int,
                        height as int,
                        n as int,
                        m as int,
                        j2,
                        i2,
                    )),
            decreases n - i,
        {
            proof { lemma_slot_bounds(n as int, m as int, j as int, i as int); }
            let k = j * n + i;
            match &subimages[k] {
                Some(img) => {
                    if !tile_fits_exec(src_len, img.len(), width, height, n, m, j, i) {
                        assert(!(subimages@[slot(n as int, j as int, i as int)] matches Some(b)
                            ==> tile_fits(src_len as int, b@.len() as int, width as int, height as int, n as int, m as int, j as int, i as int)));
                        return false;
                    }
                },
                None => {},
            }
            i = i + 1;
        }
        j = j + 1;
    }
    true
}


/// A tile buffer of full size (`tile_buffer_len`) with tiles of even sides is
/// wholly overwritten by a split: what it held before does not matter.
pub proof fn law_full_tile_overwritten(
    new1: Seq<u8>,
    old1: Seq<u8>,
    new2: Seq<u8>,
    old2: Seq<u8>,
    src: Seq<u8>,
    width: int,
    height: int,
    n: int,
    m: int,
    j: int,
    i: int,
)
    requires
        n > 0,
        m > 0,
        width >= 0,
        height >= 0,
        tile_w(width, n) % 2 == 0,
        tile_h(height, m) % 2 == 0,
        old1.len() == tile_buffer_len(width, height, n, m),
        old2.len() == tile_buffer_len(width, height, n, m),
        tile_copied(new1, old1, src, width, height, n, m, j, i),
        tile_copied(new2, old2, src, width, height, n, m, j, i),
    ensures
        new1 == new2,
{
    let sw = tile_w(width, n);
    let sh = tile_h(height, m);
    assert(sw >= 0 && sh >= 0) by (nonlinear_arith)
        requires n > 0, m > 0, width >= 0, height >= 0, sw == width / n, sh == height / m;
    let a = sw / 2;
    let b = sh / 2;
    let sp = tile_plane(width, height, n, m);
    assert(sp == 4 * (a * b)) by (nonlinear_arith)
        requires sp == sw * sh, sw == 2 * a, sh == 2 * b;
    assert(a * b >= 0) by (nonlinear_arith)
        requires a >= 0, b >= 0;
    assert(uv_rows(height, m) == b);
    assert(uv_rows(height, m) * (sw / 2) == a * b) by (nonlinear_arith)
        requires uv_rows(height, m) == b, sw / 2 == a;
    assert(old1.len() == 6 * (a * b));
    assert forall|p: int| 0 <= p < new1.len() implies new1[p] == new2[p] by {
        assert(new1[p] == tile_byte(old1, src, width, height, n, m, j, i, p));
        assert(new2[p] == tile_byte(old2, src, width, height, n, m, j, i, p));
    }
    assert(new1 =~= new2);
}

/// Splitting the same frame into two sets of slots that agree on which tiles
/// are present, with present tiles of full size and even sides, and agree
/// past the `n * m` tiles, gives the same tiles: no earlier content survives.
pub proof fn law_split_ignores_old_tiles(
    old1: Seq<Option<Vec<u8>>>,
    new1: Seq<Option<Vec<u8>>>,
    old2: Seq<Option<Vec<u8>>>,
    new2: Seq<Option<Vec<u8>>>,
    src: Seq<u8>,
    width: int,
    height: int,
    n: int,
    m: int,
)
    requires
        n > 0,
        m > 0,
        width >= 0,
        height >= 0,
        tile_w(width, n) % 2 == 0,
        tile_h(height, m) % 2 == 0,
        old1.len() == old2.len(),
        old1.len() >= n * m,
        forall|k: int| 0 <= k < n * m ==> (#[trigger] old1[k] is Some <==> old2[k] is Some),
        forall|k: int|
            0 <= k < n * m ==> (#[trigger] old1[k] matches Some(b) ==> b@.len() == tile_buffer_len(width, height, n, m)),
        forall|k: int|
            0 <= k < n * m ==> (#[trigger] old2[k] matches Some(b) ==> b@.len() == tile_buffer_len(width, height, n, m)),
        forall|k: int| n * m <= k < old1.len() ==> #[trigger] old1[k] == old2[k],
        split_done(old1, new1, src, width, height, n, m),
        split_done(old2, new2, src, width, height, n, m),
    ensures
        new1.len() == new2.len(),
        forall|k: int| 0 <= k < n * m ==> (#[trigger] new1[k] is None <==> new2[k] is None),
        forall|k: int|
            0 <= k < n * m ==> (#[trigger] new1[k] matches Some(b1) ==> (new2[k] matches Some(b2) && b1@ == b2@)),
        forall|k: int| n * m <= k < new1.len() ==> #[trigger] new1[k] == new2[k],
{
    assert forall|k: int| 0 <= k < n * m implies (#[trigger] new1[k] is None <==> new2[k] is None) && (new1[k] matches Some(b1)
        ==> (new2[k] matches Some(b2) && b1@ == b2@)) by {
        let j = k / n;
        let i = k % n;
        lemma_fundamental_div_mod(k, n);
        assert(0 <= i < n);
        assert(0 <= j < m) by (nonlinear_arith)
            requires 0 <= k < n * m, k == n * j + i, 0 <= i < n, n > 0;
        assert(n * j == j * n) by (nonlinear_arith);
        assert(slot(n, j, i) == k);
        assert(tile_result(old1[slot(n, j, i)], new1[slot(n, j, i)], src, width, height, n, m, j, i));
        assert(tile_result(old2[slot(n, j, i)], new2[slot(n, j, i)], src, width, height, n, m, j, i));
        if old1[k] is Some {
            let a1 = old1[k]->Some_0;
            let a2 = old2[k]->Some_0;
            let b1 = new1[k]->Some_0;
            let b2 = new2[k]->Some_0;
            law_full_tile_overwritten(b1@, a1@, b2@, a2@, src, width, height, n, m, j, i);
        }
    }
    assert forall|k: int| n * m <= k < new1.len() implies #[trigger] new1[k] == new2[k] by {
        assert(new1[k] == old1[k]);
        assert(new2[k] == old2[k]);
    }
}

/// The tiles reassemble the frame's luma plane: when the grid divides the
/// frame exactly and every tile buffer is present and of full size, after a
/// split the luma sample of pixel `(x, y)` is in the tile of row `y / sh`,
/// column `x / sw`, at row `y % sh`, column `x % sw` of its luma plane.
pub proof fn law_tiles_reassemble_luma(
    old: Seq<Option<Vec<u8>>>,
    new: Seq<Option<Vec<u8>>>,
    src: Seq<u8>,
    width: int,
    height: int,
    n: int,
    m: int,
    x: int,
    y: int,
)
    requires
        n > 0,
        m > 0,
        width >= 0,
        height >= 0,
        width % n == 0,
        height % m == 0,
        0 <= x < width,
        0 <= y < height,
        old.len() >= n * m,
        forall|k: int|
            0 <= k < n * m ==> (#[trigger] old[k] matches Some(b) && b@.len() == tile_buffer_len(width, height, n, m)),
        split_done(old, new, src, width, height, n, m),
    ensures
        ({
            let sw = tile_w(width, n);
            let sh = tile_h(height, m);
            new[slot(n, y / sh, x / sw)] matches Some(b) && b@[(y % sh) * sw + x % sw] == src[y * width + x]
        }),
{
    let sw = tile_w(width, n);
    let sh = tile_h(height, m);
    lemma_fundamental_div_mod(width, n);
    lemma_fundamental_div_mod(height, m);
    assert(sw > 0 && sh > 0) by (nonlinear_arith)
        requires width == n * sw + 0, height == m * sh + 0, 0 <= x < width, 0 <= y < height, n > 0, m > 0;
    let j = y / sh;
    let r = y % sh;
    let i = x / sw;
    let c = x % sw;
    lemma_fundamental_div_mod(y, sh);
    lemma_fundamental_div_mod(x, sw);
    assert(sh * j == j * sh && sw * i == i * sw) by (nonlinear_arith);
    assert(0 <= r < sh && 0 <= c < sw);
    assert(0 <= j < m && 0 <= i < n) by (nonlinear_arith)
        requires y == j * sh + r, x == i * sw + c, 0 <= r < sh, 0 <= c < sw, y < m * sh, x < n * sw, y >= 0, x >= 0,
            sh > 0, sw > 0;
    lemma_slot_bounds(n, m, j, i);
    let k = slot(n, j, i);
    assert(tile_result(old[k], new[k], src, width, height, n, m, j, i));
    let a = old[k]->Some_0;
    let b = new[k]->Some_0;
    let sp = tile_plane(width, height, n, m);
    let p = r * sw + c;
    assert(0 <= p < sp) by (nonlinear_arith)
        requires p == r * sw + c, 0 <= r < sh, 0 <= c < sw, sp == sw * sh;
    assert(sp <= sp * 3 / 2);
    lemma_fundamental_div_mod_converse(p, sw, r, c);
    assert(b@[p] == tile_byte(a@, src, width, height, n, m, j, i, p));
    assert(tile_y_start(width, height, n, m, j, i) + r * width + c == y * width + x) by (nonlinear_arith)
        requires
            tile_y_start(width, height, n, m, j, i) == (j * sh) * width + i * sw,
            y == j * sh + r,
            x == i * sw + c,
    ;
}

} // verus!
