//! Physical frame geometry: the managed range, frame and block sizes, and the
//! conversions between frame indices and addresses.
use vstd::prelude::*;
use vstd::arithmetic::power2::{pow2, lemma2_to64, lemma_pow2_unfold, lemma_pow2_pos};
use vstd::bits::lemma_usize_shl_is_mul;

verus! {

/// First byte of the memory handed to the frame allocator.
pub const MEMORY_START: u32 = 0x1000_0000;

/// One past the last byte of the memory handed to the frame allocator.
pub const MEMORY_END: u32 = 0x1080_0000;

/// Bytes in one physical frame.
pub const FRAME_SIZE: usize = 0x1000;

/// Number of frames between `MEMORY_START` and `MEMORY_END`.
pub const NFRAME: usize = 0x800;

/// Number of block orders: blocks span `2^0 .. 2^(LAYER_COUNT - 1)` frames.
pub const LAYER_COUNT: usize = 12;

/// Frames in a block of order `k`.
pub open spec fn order_frames(k: nat) -> int {
    pow2(k) as int
}

/// Bytes in a block of order `k`.
pub open spec fn order_bytes(k: nat) -> int {
    pow2(k) * FRAME_SIZE
}

/// Address of the first byte of frame `idx`.
pub open spec fn frame_addr(idx: int) -> int {
    MEMORY_START + idx * FRAME_SIZE
}

/// Index of the frame that holds address `addr`.
pub open spec fn frame_index(addr: int) -> int {
    (addr - MEMORY_START) / FRAME_SIZE as int
}

/// A block of order `k` may start at frame `h`: it is naturally aligned and in range.
pub open spec fn block_fits(h: int, k: nat) -> bool {
    &&& 0 <= h
    &&& k < LAYER_COUNT
    &&& h % order_frames(k) == 0
    &&& h + order_frames(k) <= NFRAME
}

/// The start of the block of order `k` that forms a pair with the block at `h`.
pub open spec fn buddy_of(h: int, k: nat) -> int {
    if (h / order_frames(k)) % 2 == 0 {
        h + order_frames(k)
    } else {
        h - order_frames(k)
    }
}

pub proof fn lemma_order_values()
    ensures
        order_frames(0) == 1,
        order_frames(1) == 2,
        order_frames(2) == 4,
        order_frames(3) == 8,
        order_frames(4) == 16,
        order_frames(5) == 32,
        order_frames(6) == 64,
        order_frames(7) == 128,
        order_frames(8) == 256,
        order_frames(9) == 512,
        order_frames(10) == 1024,
        order_frames(11) == 2048,
        order_frames(12) == 4096,
{
    lemma2_to64();
}

/// Each order doubles the block of the order below it.
pub proof fn lemma_order_double(k: nat)
    ensures
        order_frames(k + 1) == 2 * order_frames(k),
        order_frames(k) >= 1,
{
    lemma_pow2_unfold(k + 1);
    lemma_pow2_pos(k);
}

/// Both halves of an aligned block of order `k + 1` are aligned blocks of order `k`.
pub proof fn lemma_halves(h: int, k: nat)
    requires
        block_fits(h, k + 1),
    ensures
        block_fits(h, k),
        block_fits(h + order_frames(k), k),
        buddy_of(h, k) == h + order_frames(k),
        buddy_of(h + order_frames(k), k) == h,
{
    lemma_order_double(k);
    let p = order_frames(k);
    let q = h / (2 * p);
    assert(h == 2 * p * q) by (nonlinear_arith)
        requires h % (2 * p) == 0, p >= 1, q == h / (2 * p);
    assert(h == p * (2 * q)) by (nonlinear_arith)
        requires h == 2 * p * q;
    assert(h % p == 0 && h / p == 2 * q) by (nonlinear_arith)
        requires h == p * (2 * q), p >= 1;
    assert(h + p == p * (2 * q + 1)) by (nonlinear_arith)
        requires h == p * (2 * q);
    assert((h + p) % p == 0 && (h + p) / p == 2 * q + 1) by (nonlinear_arith)
        requires h + p == p * (2 * q + 1), p >= 1;
    assert((2 * q) % 2 == 0);
    assert((2 * q + 1) % 2 == 1);
}

/// An aligned block and its buddy make up an aligned block of the next order,
/// which starts at the lower of the two.
pub proof fn lemma_merge(h: int, k: nat)
    requires
        0 <= h,
        h % order_frames(k) == 0,
        k + 1 < LAYER_COUNT,
        h + order_frames(k) <= NFRAME,
    ensures
        0 <= buddy_of(h, k),
        buddy_of(h, k) + order_frames(k) <= NFRAME,
        buddy_of(h, k) % order_frames(k) == 0,
        buddy_of(buddy_of(h, k), k) == h,
        block_fits(if h < buddy_of(h, k) { h } else { buddy_of(h, k) }, k + 1),
        (if h < buddy_of(h, k) { h } else { buddy_of(h, k) }) + order_frames(k) == (if h < buddy_of(h, k) { buddy_of(h, k) } else { h }),
{
    lemma_order_double(k);
    lemma_order_values();
    let p = order_frames(k);
    let q = h / p;
    assert(h == p * q) by (nonlinear_arith)
        requires h % p == 0, p >= 1, q == h / p;
    assert(q >= 0) by (nonlinear_arith)
        requires h >= 0, p >= 1, q == h / p;
    assert(order_frames(k + 1) <= 2048) by {
        assert(k + 1 <= 11);
        if k + 1 < 11 {
            vstd::arithmetic::power2::lemma_pow2_strictly_increases(k + 1, 11);
        }
    }
    if q % 2 == 0 {
        let r = q / 2;
        assert(h == (2 * p) * r) by (nonlinear_arith)
            requires h == p * q, q == 2 * (q / 2), r == q / 2;
        assert(h % (2 * p) == 0) by (nonlinear_arith)
            requires h == (2 * p) * r, p >= 1, r >= 0;
        assert(h + p == p * (q + 1)) by (nonlinear_arith)
            requires h == p * q;
        assert((h + p) % p == 0 && (h + p) / p == q + 1) by (nonlinear_arith)
            requires h + p == p * (q + 1), p >= 1;
        // NFRAME is a multiple of 2p, so the pair fits whole.
        assert(NFRAME as int == (2 * p) * (NFRAME as int / (2 * p))) by {
            lemma_pow2_div_nframe(k + 1);
        }
        assert(h + 2 * p <= NFRAME) by (nonlinear_arith)
            requires h == (2 * p) * r, h < NFRAME as int, NFRAME as int == (2 * p) * (NFRAME as int / (2 * p)), p >= 1, r >= 0;
    } else {
        assert(q >= 1);
        let r = q / 2;
        assert(q == 2 * r + 1);
        assert(h - p == (2 * p) * r) by (nonlinear_arith)
            requires h == p * q, q == 2 * r + 1;
        assert(h - p == p * (q - 1)) by (nonlinear_arith)
            requires h == p * q;
        assert((h - p) % p == 0 && (h - p) / p == q - 1) by (nonlinear_arith)
            requires h - p == p * (q - 1), p >= 1, q >= 1;
        assert((h - p) % (2 * p) == 0) by (nonlinear_arith)
            requires h - p == (2 * p) * r, p >= 1, r >= 0;
    }
}

/// Every block size of an order below `LAYER_COUNT` divides the frame count.
pub proof fn lemma_pow2_div_nframe(k: nat)
    requires
        k < LAYER_COUNT,
    ensures
        NFRAME as int % order_frames(k) == 0,
        NFRAME as int == order_frames(k) * (NFRAME as int / order_frames(k)),
{
    lemma_order_values();
    assert(k <= 11);
    if k == 0 {} else if k == 1 {} else if k == 2 {} else if k == 3 {} else if k == 4 {}
    else if k == 5 {} else if k == 6 {} else if k == 7 {} else if k == 8 {} else if k == 9 {}
    else if k == 10 {} else {}
}

/// The number of frames in a block of order `k`.
pub fn block_size(k: usize) -> (r: usize)
    requires
        k < LAYER_COUNT,
    ensures
        r == order_frames(k as nat),
        1 <= r <= NFRAME,
{
    proof {
        lemma_order_values();
        assert(k <= 11);
        if k < 11 {
            vstd::arithmetic::power2::lemma_pow2_strictly_increases(k as nat, 11);
        }
        lemma_pow2_pos(k as nat);
        lemma_usize_shl_is_mul(1, k);
    }
    1usize << k
}

/// The address of a frame leads back to the frame.
pub proof fn lemma_frame_index_addr(h: int)
    requires
        0 <= h < NFRAME,
    ensures
        frame_index(frame_addr(h)) == h,
        MEMORY_START <= frame_addr(h) < MEMORY_END,
{
    assert((h * 4096) / 4096 == h) by (nonlinear_arith);
}

} // verus!
