//! The capturing side's frame pipeline: which blocks or tiles changed since
//! the previous frame, what goes into each frame message, and the header
//! that describes the stream.

use vstd::prelude::*;
use crate::codec::{deflated, inflated, tile_message};
use crate::dscom::{rgb_block_args_ok, rgb_blocks_filled, rgb_blocks_made};

verus! {

/// Block buffers for the block stream, filled with 255 but for the block
/// index; see [`rgb_blocks_filled`].
pub fn get_rgb_block(w: usize, h: usize, sw: usize, sh: usize, offset: usize) -> (r: (
    Vec<Vec<u8>>,
    usize,
    usize,
))
    requires
        rgb_block_args_ok(w, h, sw, sh, offset),
    ensures
        rgb_blocks_made(r, w, h, sw, sh, offset, 255u8),
{
    rgb_blocks_filled(w, h, sw, sh, offset, 255u8)
}

/// The bytes sent for the first `count` blocks of frame `cur`: every block
/// when `full`, else each block that differs from the same block of `prev`,
/// in block order, back to back.
pub open spec fn changed_payload(prev: Seq<Vec<u8>>, cur: Seq<Vec<u8>>, count: int, full: bool) -> Seq<u8>
    decreases count,
{
    if count <= 0 {
        Seq::empty()
    } else {
        let before = changed_payload(prev, cur, count - 1, full);
        if full || prev[count - 1]@ != cur[count - 1]@ {
            before + cur[count - 1]@
        } else {
            before
        }
    }
}

/// The blocks sent when not resyncing are exactly the blocks of `cur` whose
/// bytes differ from the same block of `prev`, in order, back to back; on a
/// resync every block is sent.
pub proof fn law_changed_payload_is_differing_blocks(prev: Seq<Vec<u8>>, cur: Seq<Vec<u8>>, count: int)
    requires
        0 <= count <= prev.len(),
        count <= cur.len(),
    ensures
        changed_payload(prev, cur, count, false) == Seq::new(count as nat, |i: int| i).filter_map(
            |i: int| if prev[i]@ != cur[i]@ { Some(cur[i]@) } else { None },
        ).flatten_alt(),
        changed_payload(prev, cur, count, true) == Seq::new(count as nat, |i: int| cur[i]@).flatten_alt(),
    decreases count,
{
    let f = |i: int| if prev[i]@ != cur[i]@ { Some(cur[i]@) } else { None };
    if count > 0 {
        law_changed_payload_is_differing_blocks(prev, cur, count - 1);
        assert(Seq::new(count as nat, |i: int| i).drop_last() =~= Seq::new((count - 1) as nat, |i: int| i));
        assert(Seq::new(count as nat, |i: int| cur[i]@).drop_last() =~= Seq::new((count - 1) as nat, |i: int| cur[i]@));
        let fm = Seq::new(count as nat, |i: int| i).filter_map(f);
        let fm0 = Seq::new((count - 1) as nat, |i: int| i).filter_map(f);
        if prev[count - 1]@ != cur[count - 1]@ {
            assert(fm == fm0 + seq![cur[count - 1]@]);
            assert((fm0 + seq![cur[count - 1]@]).drop_last() =~= fm0);
        } else {
            assert(fm == fm0);
        }
    } else {
        assert(Seq::new(0, |i: int| i).filter_map(f) =~= Seq::<Seq<u8>>::empty());
    }
}

/// When no block changed and it is not a resync, nothing is sent.
pub proof fn law_unchanged_blocks_send_nothing(prev: Seq<Vec<u8>>, cur: Seq<Vec<u8>>, count: int)
    requires
        0 <= count <= prev.len(),
        count <= cur.len(),
        forall|i: int| 0 <= i < count ==> #[trigger] prev[i]@ == cur[i]@,
    ensures
        changed_payload(prev, cur, count, false) == Seq::<u8>::empty(),
    decreases count,
{
    if count > 0 {
        law_unchanged_blocks_send_nothing(prev, cur, count - 1);
        assert(prev[count - 1]@ == cur[count - 1]@);
    }
}

/// A block that differs from the previous frame's in any byte (or in length)
/// is sent whole: its bytes occur, in one run, in the payload.
pub proof fn law_differing_block_is_sent(prev: Seq<Vec<u8>>, cur: Seq<Vec<u8>>, count: int, k: int, full: bool)
    requires
        0 <= k < count <= prev.len(),
        count <= cur.len(),
        full || prev[k]@.len() != cur[k]@.len() || exists|p: int|
            0 <= p < cur[k]@.len() && p < prev[k]@.len() && prev[k]@[p] != cur[k]@[p],
    ensures
        exists|off: int|
            0 <= off && off + cur[k]@.len() <= changed_payload(prev, cur, count, full).len()
                && #[trigger] changed_payload(prev, cur, count, full).subrange(off, off + cur[k]@.len()) == cur[k]@,
    decreases count,
{
    let payload = changed_payload(prev, cur, count, full);
    let before = changed_payload(prev, cur, count - 1, full);
    if k == count - 1 {
        if !full && prev[k]@.len() == cur[k]@.len() {
            let p = choose|p: int| 0 <= p < cur[k]@.len() && p < prev[k]@.len() && prev[k]@[p] != cur[k]@[p];
            assert(prev[k]@ != cur[k]@);
        }
        assert(payload == before + cur[k]@);
        assert(payload.subrange(before.len() as int, (before.len() + cur[k]@.len()) as int) =~= cur[k]@);
    } else {
        law_differing_block_is_sent(prev, cur, count - 1, k, full);
        let off = choose|off: int|
            0 <= off && off + cur[k]@.len() <= before.len() && #[trigger] before.subrange(off, off + cur[k]@.len()) == cur[k]@;
        if full || prev[count - 1]@ != cur[count - 1]@ {
            assert(payload == before + cur[count - 1]@);
            assert(payload.subrange(off, off + cur[k]@.len()) =~= before.subrange(off, off + cur[k]@.len()));
        }
    }
}

/// Whether `a` and `b` hold the same bytes.
pub fn bytes_equal(a: &[u8], b: &[u8]) -> (eq: bool)
    ensures
        eq == (a@ == b@),
{
    if a.len() != b.len() {
        return false;
    }
    let mut i: usize = 0;
    while i < a.len()
        invariant
            a@.len() == b@.len(),
            i <= a@.len(),
            forall|q: int| 0 <= q < i ==> a@[q] == b@[q],
        decreases a@.len() - i,
    {
        if a[i] != b[i] {
            return false;
        }
        i = i + 1;
    }
    assert(a@ =~= b@);
    true
}

/// Concatenates the first `count` blocks of `cur` that must be sent: all of
/// them when `full`, else those that differ from `prev`.
pub fn changed_blocks(prev: &Vec<Vec<u8>>, cur: &Vec<Vec<u8>>, count: usize, full: bool) -> (payload: Vec<u8>)
    requires
        count <= prev@.len(),
        count <= cur@.len(),
    ensures
        payload@ == changed_payload(prev@, cur@, count as int, full),
{
    let mut payload: Vec<u8> = Vec::new();
    let mut i: usize = 0;
    while i < count
        invariant
            i <= count,
            count <= prev@.len(),
            count <= cur@.len(),
            payload@ == changed_payload(prev@, cur@, i as int, full),
        decreases count - i,
    {
        let block = &cur[i];
        if full || !bytes_equal(prev[i].as_slice(), block.as_slice()) {
            let mut p: usize = 0;
            let ghost base = payload@;
            while p < block.len()
                invariant
                    p <= block@.len(),
                    block@ == cur@[i as int]@,
                    payload@ == base + block@.subrange(0, p as int),
                decreases block@.len() - p,
            {
                payload.push(block[p]);
                p = p + 1;
                assert(payload@ =~= base + block@.subrange(0, p as int));
            }
            assert(block@.subrange(0, block@.len() as int) =~= block@);
        }
        i = i + 1;
    }
    payload
}

/// The message for one frame of the block stream: the payload of
/// [`changed_blocks`] compressed, or nothing if that comes out empty.
pub fn frame_message(prev: &Vec<Vec<u8>>, cur: &Vec<Vec<u8>>, count: usize, full: bool) -> (m: Option<Vec<u8>>)
    requires
        count <= prev@.len(),
        count <= cur@.len(),
    ensures
        match m {
            Some(v) => v@ == deflated(changed_payload(prev@, cur@, count as int, full)) && v@.len() > 0
                && inflated(v@) == Some(changed_payload(prev@, cur@, count as int, full)),
            None => deflated(changed_payload(prev@, cur@, count as int, full)).len() == 0,
        },
{
    let payload = changed_blocks(prev, cur, count, full);
    let msg = tile_message(payload.as_slice());
    if msg.len() > 0 {
        Some(msg)
    } else {
        None
    }
}

/// Every this many frames all blocks are resent.
pub const RESYNC_FRAMES: usize = 100;

/// One frame of the resend schedule: with `k` frames counted since the last
/// full resend (or the start), whether this frame sends every block, and the
/// count for the next frame. Counting from 0, frames 100, 200, ... are full.
pub fn resync_step(k: usize) -> (r: (bool, usize))
    ensures
        r.0 == (k >= RESYNC_FRAMES),
        r.1 == if k >= RESYNC_FRAMES { 1 } else { k + 1 },
{
    if k >= RESYNC_FRAMES {
        (true, 1)
    } else {
        (false, k + 1)
    }
}

/// `x` as two bytes, high byte first (its low 16 bits).
pub open spec fn be16_bytes(x: usize) -> Seq<u8> {
    seq![((x / 256) % 256) as u8, (x % 256) as u8]
}

/// The two header bytes of a dimension give it back: high byte times 256
/// plus low byte is the dimension's low 16 bits, so any dimension below
/// 65536 is read back exactly.
pub proof fn law_be16_round_trip(x: usize)
    ensures
        be16_bytes(x).len() == 2,
        be16_bytes(x)[0] * 256 + be16_bytes(x)[1] == x % 65536,
        x < 65536 ==> be16_bytes(x)[0] * 256 + be16_bytes(x)[1] == x,
{
    assert(((x / 256) % 256) * 256 + x % 256 == x % 65536) by (nonlinear_arith);
}

/// The tile stream's header reads back as the frame's width and height
/// (below 65536) and the grid's rows and columns (below 256).
pub proof fn law_screen_meta_reads_back(w: usize, h: usize, m: usize, n: usize)
    requires
        w < 65536,
        h < 65536,
        m < 256,
        n < 256,
    ensures
        ({
            let meta = be16_bytes(w) + be16_bytes(h) + seq![(m % 256) as u8, (n % 256) as u8];
            &&& meta.len() == 6
            &&& meta[0] * 256 + meta[1] == w
            &&& meta[2] * 256 + meta[3] == h
            &&& meta[4] == m
            &&& meta[5] == n
        }),
{
    law_be16_round_trip(w);
    law_be16_round_trip(h);
}

/// The block stream's header reads back as the frame's width and height and
/// the block width and height (each below 65536), then the mask.
pub proof fn law_block_meta_reads_back(w: usize, h: usize, sw: usize, sh: usize, mask: u8)
    requires
        w < 65536,
        h < 65536,
        sw < 65536,
        sh < 65536,
    ensures
        ({
            let meta = be16_bytes(w) + be16_bytes(h) + be16_bytes(sw) + be16_bytes(sh) + seq![mask];
            &&& meta.len() == 9
            &&& meta[0] * 256 + meta[1] == w
            &&& meta[2] * 256 + meta[3] == h
            &&& meta[4] * 256 + meta[5] == sw
            &&& meta[6] * 256 + meta[7] == sh
            &&& meta[8] == mask
        }),
{
    law_be16_round_trip(w);
    law_be16_round_trip(h);
    law_be16_round_trip(sw);
    law_be16_round_trip(sh);
}

fn push_be16(out: &mut Vec<u8>, x: usize)
    ensures
        final(out)@ == old(out)@ + be16_bytes(x),
{
    let hi = (x >> 8) as u8;
    let lo = x as u8;
    assert(hi == ((x / 256) % 256) as u8 && lo == (x % 256) as u8) by (bit_vector)
        requires hi == (x >> 8) as u8, lo == x as u8;
    out.push(hi);
    out.push(lo);
    assert(out@ =~= old(out)@ + be16_bytes(x));
}

/// The header of the tile stream: frame width and height as two bytes each,
/// then the number of tile rows and columns as one byte each.
pub fn screen_meta(w: usize, h: usize, m: usize, n: usize) -> (meta: Vec<u8>)
    ensures
        meta@ == be16_bytes(w) + be16_bytes(h) + seq![(m % 256) as u8, (n % 256) as u8],
{
    let mut meta: Vec<u8> = Vec::new();
    push_be16(&mut meta, w);
    push_be16(&mut meta, h);
    let mb = m as u8;
    let nb = n as u8;
    assert(mb == (m % 256) as u8 && nb == (n % 256) as u8) by (bit_vector)
        requires mb == m as u8, nb == n as u8;
    meta.push(mb);
    meta.push(nb);
    assert(meta@ =~= be16_bytes(w) + be16_bytes(h) + seq![(m % 256) as u8, (n % 256) as u8]);
    meta
}

/// The header of the block stream: frame width and height, block width and
/// height, two bytes each, then the colour mask byte.
pub fn block_meta(w: usize, h: usize, sw: usize, sh: usize, mask: u8) -> (meta: Vec<u8>)
    ensures
        meta@ == be16_bytes(w) + be16_bytes(h) + be16_bytes(sw) + be16_bytes(sh) + seq![mask],
{
    let mut meta: Vec<u8> = Vec::new();
    push_be16(&mut meta, w);
    push_be16(&mut meta, h);
    push_be16(&mut meta, sw);
    push_be16(&mut meta, sh);
    meta.push(mask);
    assert(meta@ =~= be16_bytes(w) + be16_bytes(h) + be16_bytes(sw) + be16_bytes(sh) + seq![mask]);
    meta
}

/// Indices below `count` of the tiles whose luma plane (first `luma` bytes)
/// differs between `new` and `old`, in increasing order.
pub open spec fn changed_tile_indices(new: Seq<Option<Vec<u8>>>, old: Seq<Option<Vec<u8>>>, count: int, luma: int) -> Seq<usize>
    decreases count,
{
    if count <= 0 {
        Seq::empty()
    } else {
        let before = changed_tile_indices(new, old, count - 1, luma);
        if new[count - 1]->Some_0@.subrange(0, luma) != old[count - 1]->Some_0@.subrange(0, luma) {
            before.push((count - 1) as usize)
        } else {
            before
        }
    }
}

/// The tiles can be compared: the first `count` slots of both frames hold a
/// buffer with at least `luma` bytes.
pub open spec fn tiles_comparable(new: Seq<Option<Vec<u8>>>, old: Seq<Option<Vec<u8>>>, count: int, luma: int) -> bool {
    &&& count <= new.len()
    &&& count <= old.len()
    &&& forall|k: int| 0 <= k < count ==> (#[trigger] new[k] matches Some(b) && b@.len() >= luma)
    &&& forall|k: int| 0 <= k < count ==> (#[trigger] old[k] matches Some(b) && b@.len() >= luma)
}

/// Exactly the tiles whose luma planes differ are reported, in increasing
/// order and without repeats: index `k` below `count` is in the result when
/// the first `luma` bytes of `new[k]` and `old[k]` differ as sequences, and
/// only then; in particular a difference in any single luma byte is reported.
pub proof fn law_changed_tiles_are_differing_tiles(
    new: Seq<Option<Vec<u8>>>,
    old: Seq<Option<Vec<u8>>>,
    count: int,
    luma: int,
)
    requires
        tiles_comparable(new, old, count, luma),
        0 <= count <= usize::MAX,
        0 <= luma,
    ensures
        forall|k: int|
            0 <= k < count ==> (changed_tile_indices(new, old, count, luma).contains(k as usize) <==> #[trigger] new[k]->Some_0@.subrange(
                0,
                luma,
            ) != old[k]->Some_0@.subrange(0, luma)),
        forall|k: int, p: int|
            0 <= k < count && 0 <= p < luma && #[trigger] new[k]->Some_0@[p] != #[trigger] old[k]->Some_0@[p]
                ==> changed_tile_indices(new, old, count, luma).contains(k as usize),
        forall|a: int, b: int|
            0 <= a < b < changed_tile_indices(new, old, count, luma).len() ==> #[trigger] changed_tile_indices(
                new,
                old,
                count,
                luma,
            )[a] < #[trigger] changed_tile_indices(new, old, count, luma)[b],
        forall|a: int|
            0 <= a < changed_tile_indices(new, old, count, luma).len() ==> #[trigger] changed_tile_indices(
                new,
                old,
                count,
                luma,
            )[a] < count,
    decreases count,
{
    let r = changed_tile_indices(new, old, count, luma);
    if count > 0 {
        assert(tiles_comparable(new, old, count - 1, luma));
        law_changed_tiles_are_differing_tiles(new, old, count - 1, luma);
        let r0 = changed_tile_indices(new, old, count - 1, luma);
        assert forall|k: int| 0 <= k < count implies (r.contains(k as usize) <==> #[trigger] new[k]->Some_0@.subrange(0, luma)
            != old[k]->Some_0@.subrange(0, luma)) by {
            if k < count - 1 {
                if r.contains(k as usize) && !r0.contains(k as usize) {
                    let x = choose|x: int| 0 <= x < r.len() && r[x] == k as usize;
                    assert(x == r0.len());
                }
                if r0.contains(k as usize) {
                    let x = choose|x: int| 0 <= x < r0.len() && r0[x] == k as usize;
                    assert(r[x] == r0[x]);
                }
            } else {
                if new[k]->Some_0@.subrange(0, luma) != old[k]->Some_0@.subrange(0, luma) {
                    assert(r[r0.len() as int] == k as usize);
                } else if r.contains(k as usize) {
                    let x = choose|x: int| 0 <= x < r.len() && r[x] == k as usize;
                    assert(r0[x] < count - 1);
                }
            }
        }
        assert forall|k: int, p: int|
            0 <= k < count && 0 <= p < luma && #[trigger] new[k]->Some_0@[p] != #[trigger] old[k]->Some_0@[p] implies r.contains(
            k as usize) by {
            assert(new[k] matches Some(b) && b@.len() >= luma);
            assert(old[k] matches Some(b) && b@.len() >= luma);
            assert(new[k]->Some_0@.subrange(0, luma)[p] != old[k]->Some_0@.subrange(0, luma)[p]);
        }
    }
}

/// Tests [`tiles_comparable`].
pub fn tiles_comparable_check(new: &Vec<Option<Vec<u8>>>, old: &Vec<Option<Vec<u8>>>, count: usize, luma: usize) -> (ok: bool)
    ensures
        ok == tiles_comparable(new@, old@, count as int, luma as int),
{
    if count > new.len() || count > old.len() {
        return false;
    }
    let mut k: usize = 0;
    while k < count
        invariant
            k <= count,
            count <= new@.len(),
            count <= old@.len(),
            forall|q: int| 0 <= q < k ==> (#[trigger] new@[q] matches Some(b) && b@.len() >= luma),
            forall|q: int| 0 <= q < k ==> (#[trigger] old@[q] matches Some(b) && b@.len() >= luma),
        decreases count - k,
    {
        match (&new[k], &old[k]) {
            (Some(a), Some(b)) => {
                if a.len() < luma || b.len() < luma {
                    return false;
                }
            },
            _ => {
                return false;
            },
        }
        k = k + 1;
    }
    true
}

/// Which of the first `count` tiles changed between two split frames, by
/// their luma planes of `luma` bytes.
pub fn changed_tiles(new: &Vec<Option<Vec<u8>>>, old: &Vec<Option<Vec<u8>>>, count: usize, luma: usize) -> (changed: Vec<usize>)
    requires
        tiles_comparable(new@, old@, count as int, luma as int),
    ensures
        changed@ == changed_tile_indices(new@, old@, count as int, luma as int),
{
    let mut changed: Vec<usize> = Vec::new();
    let mut k: usize = 0;
    while k < count
        invariant
            k <= count,
            tiles_comparable(new@, old@, count as int, luma as int),
            changed@ == changed_tile_indices(new@, old@, k as int, luma as int),
        decreases count - k,
    {
        match (&new[k], &old[k]) {
            (Some(a), Some(b)) => {
                if !bytes_equal(&a.as_slice()[0..luma], &b.as_slice()[0..luma]) {
                    changed.push(k);
                }
            },
            _ => {
                assert(false);
            },
        }
        k = k + 1;
    }
    changed
}

} // verus!
