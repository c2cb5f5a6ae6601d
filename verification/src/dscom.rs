//! Definitions shared by the capturing side and the browser side: the tags of
//! control messages and the layout of the tiled RGB frame buffers.

use vstd::prelude::*;

verus! {

/// Key released; followed by one byte, the key code.
pub const KEY_UP: u8 = 1;
/// Key pressed; followed by one byte, the key code.
pub const KEY_DOWN: u8 = 2;
/// Mouse button released; followed by one byte, the button.
pub const MOUSE_KEY_UP: u8 = 3;
/// Mouse button pressed; followed by one byte, the button.
pub const MOUSE_KEY_DOWN: u8 = 4;
/// Wheel turned up; no payload.
pub const MOUSE_WHEEL_UP: u8 = 5;
/// Wheel turned down; no payload.
pub const MOUSE_WHEEL_DOWN: u8 = 6;
/// Pointer moved; followed by x and y, each as two big-endian bytes.
pub const MOVE: u8 = 7;


/// Number of blocks of side `side` needed to cover `len` pixels.
pub open spec fn blocks_needed(len: nat, side: nat) -> nat {
    len / side + if len % side == 0 { 0nat } else { 1nat }
}

/// The blocks cover the frame exactly once over: `blocks_needed(len, side)`
/// blocks of side `side` reach at least `len`, and one fewer would not.
pub proof fn law_blocks_cover(len: nat, side: nat)
    requires
        side > 0,
    ensures
        blocks_needed(len, side) * side >= len,
        len > 0 ==> (blocks_needed(len, side) - 1) * side < len,
{
    let q = len / side;
    let r = len % side;
    assert(len == q * side + r && 0 <= r < side) by (nonlinear_arith)
        requires side > 0, q == len / side, r == len % side;
    if r == 0 {
        assert(blocks_needed(len, side) == q);
        assert(q * side >= len);
        if len > 0 {
            assert((q - 1) * side == q * side - side) by (nonlinear_arith);
        }
    } else {
        assert(blocks_needed(len, side) == q + 1);
        assert((q + 1) * side == q * side + side) by (nonlinear_arith);
    }
}

/// Byte `p` of block number `i` in a freshly made block buffer: the two bytes
/// before `offset` hold `i` big-endian (its low 16 bits), every other byte is
/// `fill`.
pub open spec fn fresh_block_byte(i: int, p: int, offset: int, fill: u8) -> u8 {
    if p == offset - 2 {
        ((i / 256) % 256) as u8
    } else if p == offset - 1 {
        (i % 256) as u8
    } else {
        fill
    }
}

/// The preconditions under which the block buffers can be made: non-zero
/// block sides, room for the two index bytes when there is any block, and
/// sizes that fit in memory.
pub open spec fn rgb_block_args_ok(w: usize, h: usize, sw: usize, sh: usize, offset: usize) -> bool {
    &&& sw > 0
    &&& sh > 0
    &&& offset + sw * sh * 3 <= usize::MAX
    &&& blocks_needed(w as nat, sw as nat) * blocks_needed(h as nat, sh as nat) <= usize::MAX
    &&& (w > 0 && h > 0 ==> offset >= 2)
}

/// What the block buffers made by [`rgb_blocks_filled`] hold.
pub open spec fn rgb_blocks_made(
    r: (Vec<Vec<u8>>, usize, usize),
    w: usize,
    h: usize,
    sw: usize,
    sh: usize,
    offset: usize,
    fill: u8,
) -> bool {
    &&& r.1 == blocks_needed(w as nat, sw as nat)
    &&& r.2 == blocks_needed(h as nat, sh as nat)
    &&& r.0@.len() == r.1 * r.2
    &&& forall|i: int| 0 <= i < r.0@.len() ==> (#[trigger] r.0@[i])@.len() == offset + sw * sh * 3
    &&& forall|i: int, p: int|
        0 <= i < r.0@.len() && 0 <= p < offset + sw * sh * 3 ==> #[trigger] r.0@[i]@[p]
            == fresh_block_byte(i, p, offset as int, fill)
}

fn blocks_for(len: usize, side: usize) -> (n: usize)
    requires
        side > 0,
    ensures
        n == blocks_needed(len as nat, side as nat),
{
    if len % side == 0 {
        len / side
    } else {
        assert(len / side < len) by (nonlinear_arith)
            requires
                side > 0,
                len % side != 0,
        {
            if side == 1 {
                assert(len % side == 0);
            } else {
                assert(len / side <= len / 2);
            }
        }
        len / side + 1
    }
}

/// Makes the buffers of the blocks of `sw` by `sh` pixels that cover a `w` by
/// `h` frame, `offset` bytes of header then three bytes per pixel, every byte
/// `fill` but the block's index in the two header bytes before `offset`.
/// Returns the buffers and the number of blocks across and down.
pub fn rgb_blocks_filled(w: usize, h: usize, sw: usize, sh: usize, offset: usize, fill: u8) -> (r: (
    Vec<Vec<u8>>,
    usize,
    usize,
))
    requires
        rgb_block_args_ok(w, h, sw, sh, offset),
    ensures
        rgb_blocks_made(r, w, h, sw, sh, offset, fill),
{
    let srw = blocks_for(w, sw);
    let srh = blocks_for(h, sh);
    let num = srw * srh;
    assert(sw * sh * 3 <= usize::MAX);
    let len = offset + sw * sh * 3;
    proof {
        if num > 0 {
            assert(srw > 0 && srh > 0) by (nonlinear_arith)
                requires
                    num == srw * srh,
                    num > 0,
            ;
            assert(w > 0) by {
                if w == 0 {
                    assert(0usize / sw == 0 && 0usize % sw == 0) by (nonlinear_arith)
                        requires
                            sw > 0,
                    ;
                }
            }
            assert(h > 0) by {
                if h == 0 {
                    assert(0usize / sh == 0 && 0usize % sh == 0) by (nonlinear_arith)
                        requires
                            sh > 0,
                    ;
                }
            }
        }
    }
    let mut buf: Vec<Vec<u8>> = Vec::new();
    let mut i: usize = 0;
    while i < num
        invariant
            i <= num,
            num > 0 ==> offset >= 2,
            len == offset + sw * sh * 3,
            buf@.len() == i,
            forall|k: int| 0 <= k < i ==> (#[trigger] buf@[k])@.len() == len,
            forall|k: int, p: int|
                0 <= k < i && 0 <= p < len ==> #[trigger] buf@[k]@[p] == fresh_block_byte(
                    k,
                    p,
                    offset as int,
                    fill,
                ),
        decreases num - i,
    {
        let mut blk: Vec<u8> = Vec::new();
        let mut p: usize = 0;
        while p < len
            invariant
                p <= len,
                blk@.len() == p,
                forall|q: int| 0 <= q < p ==> #[trigger] blk@[q] == fill,
            decreases len - p,
        {
            blk.push(fill);
            p = p + 1;
        }
        let hi = (i >> 8) as u8;
        let lo = i as u8;
        assert(hi == ((i / 256) % 256) as u8 && lo == (i % 256) as u8) by (bit_vector)
            requires hi == (i >> 8) as u8, lo == i as u8;
        blk.set(offset - 2, hi);
        blk.set(offset - 1, lo);
        assert forall|q: int| 0 <= q < len implies #[trigger] blk@[q] == fresh_block_byte(
            i as int,
            q,
            offset as int,
            fill,
        ) by {}
        buf.push(blk);
        i = i + 1;
    }
    (buf, srw, srh)
}

/// Block buffers for a frame, zero-filled; see [`rgb_blocks_filled`].
pub fn get_rgb_block(w: usize, h: usize, sw: usize, sh: usize, offset: usize) -> (r: (
    Vec<Vec<u8>>,
    usize,
    usize,
))
    requires
        rgb_block_args_ok(w, h, sw, sh, offset),
    ensures
        rgb_blocks_made(r, w, h, sw, sh, offset, 0u8),
{
    rgb_blocks_filled(w, h, sw, sh, offset, 0u8)
}

} // verus!
