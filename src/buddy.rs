//! The buddy-system frame allocator: a frame table with one tagged state per
//! frame, and one strictly increasing free index per block order.
use vstd::prelude::*;
use vstd::arithmetic::power2::pow2;
use crate::frame::{
    block_fits, block_size, buddy_of, frame_addr, frame_index, lemma_halves, lemma_merge, lemma_order_double,
    lemma_order_values, order_bytes, order_frames, FRAME_SIZE, LAYER_COUNT, MEMORY_START, NFRAME,
};
use crate::sorted::{sorted_insert, sorted_remove, strictly_sorted};

verus! {

/// The state of one frame.
#[derive(Clone, Copy, PartialEq, Eq, Structural, Debug)]
pub enum BuddyState {
    /// First frame of a free block of the given order.
    Head(usize),
    /// A frame that is not the first of its block: inside a free block it names
    /// the block's first frame; a reserved frame names itself.
    Owned(usize),
    /// A frame of a block handed out to a caller, or not yet managed.
    Allocated,
}

/// The frame table and the free index of each order.
pub struct BuddyAllocator {
    pub frames: Vec<BuddyState>,
    pub free_list: Vec<Vec<usize>>,
}

/// The head at `h`, if there is one, starts a well-placed free block whose other
/// frames all name it.
pub open spec fn head_ok(frames: Seq<BuddyState>, h: int) -> bool {
    frames[h] is Head ==> {
        let k = frames[h]->Head_0 as nat;
        &&& block_fits(h, k)
        &&& forall|i: int| h < i < h + order_frames(k) ==> #[trigger] frames[i] == BuddyState::Owned(h as usize)
    }
}

/// Every head of the table starts a well-placed free block.
pub open spec fn table_wf(frames: Seq<BuddyState>) -> bool {
    &&& frames.len() == NFRAME
    &&& forall|h: int| 0 <= h < NFRAME ==> #[trigger] head_ok(frames, h)
}

/// The free block that starts at `h` holds frame `i`.
pub open spec fn covers(frames: Seq<BuddyState>, h: int, i: int) -> bool {
    &&& 0 <= h < frames.len()
    &&& frames[h] is Head
    &&& h <= i < h + order_frames(frames[h]->Head_0 as nat)
}

/// Frame `i` lies in a free block.
pub open spec fn in_free_block(frames: Seq<BuddyState>, i: int) -> bool {
    ||| frames[i] is Head
    ||| (frames[i] is Owned && covers(frames, frames[i]->Owned_0 as int, i))
}

/// The smallest order at or above `k` that has a free block, if any.
pub open spec fn has_head_of_order(frames: Seq<BuddyState>, j: nat) -> bool {
    exists|h: int| 0 <= h < frames.len() && frames[h] == BuddyState::Head(j as usize)
}

/// `h` is the lowest free block of order `j`.
pub open spec fn lowest_head(frames: Seq<BuddyState>, h: int, j: nat) -> bool {
    &&& 0 <= h < frames.len()
    &&& frames[h] == BuddyState::Head(j as usize)
    &&& forall|g: int| 0 <= g < h ==> #[trigger] frames[g] != BuddyState::Head(j as usize)
}

/// `j` is the lowest order at or above `k` with a free block.
pub open spec fn first_free_order(frames: Seq<BuddyState>, k: nat, j: nat) -> bool {
    &&& k <= j < LAYER_COUNT
    &&& has_head_of_order(frames, j)
    &&& forall|m: nat| k <= m < j ==> !#[trigger] has_head_of_order(frames, m)
}

/// Some order at or above `k` has a free block.
pub open spec fn can_serve(frames: Seq<BuddyState>, k: nat) -> bool {
    exists|j: nat| k <= j < LAYER_COUNT && #[trigger] has_head_of_order(frames, j)
}

/// No two free blocks are buddies of each other: every possible merge was made.
pub open spec fn coalesced(frames: Seq<BuddyState>) -> bool {
    forall|h: int| 0 <= h < NFRAME && (#[trigger] frames[h] is Head) && frames[h]->Head_0 + 1 < LAYER_COUNT
        ==> frames[buddy_of(h, frames[h]->Head_0 as nat)] != frames[h]
}

/// Frames are free exactly in blocks, or allocated, or reserved: before `init`.
pub open spec fn fresh_table(frames: Seq<BuddyState>) -> bool {
    &&& frames.len() == NFRAME
    &&& forall|i: int| 0 <= i < NFRAME ==> (#[trigger] frames[i] == BuddyState::Allocated || frames[i] == BuddyState::Owned(i as usize))
}

/// The largest order whose block at `h` is aligned and in range.
pub open spec fn greedy_order(h: int, k: nat) -> bool {
    &&& block_fits(h, k)
    &&& forall|m: nat| k < m < LAYER_COUNT ==> !#[trigger] block_fits(h, m)
}

/// No reserved frame lies strictly inside the block that `init` would start at an
/// unreserved frame.
pub open spec fn reservations_respect_blocks(frames: Seq<BuddyState>) -> bool {
    forall|s: int, r: int, k: nat|
        0 <= s < NFRAME && 0 <= r < NFRAME && !(#[trigger] frames[s] is Owned) && (#[trigger] frames[r] is Owned)
            && #[trigger] greedy_order(s, k) ==> !(s < r < s + order_frames(k))
}

/// Frame `i` after the free block of order `j` at `h` was split, again and again
/// at its lower half, down to a free block of order `k` at `h`: the upper half of
/// each split stays free.
pub open spec fn split_view(old: Seq<BuddyState>, h: int, j: nat, k: nat, i: int) -> BuddyState
    decreases j,
{
    if j <= k {
        BuddyAllocator::with_free_block(old, h, k, i)
    } else {
        let b = h + order_frames((j - 1) as nat);
        if b <= i < b + order_frames((j - 1) as nat) {
            BuddyAllocator::with_free_block(old, b, (j - 1) as nat, i)
        } else {
            split_view(old, h, (j - 1) as nat, k, i)
        }
    }
}

/// Frame `i` after a block of order `k` was handed out at `h`, carved from the
/// free block of order `j` at `h`.
pub open spec fn alloc_view(old: Seq<BuddyState>, h: int, j: nat, k: nat, i: int) -> BuddyState {
    if h <= i < h + order_frames(k) {
        BuddyState::Allocated
    } else {
        split_view(old, h, j, k, i)
    }
}

/// What serving a request of order `k` does: it fails, leaving the table as it
/// was, exactly when no order at or above `k` has a free block; otherwise it
/// carves the block from the lowest free block of the lowest such order.
pub open spec fn alloc_post(old: Seq<BuddyState>, k: nat, r: Option<usize>, new: Seq<BuddyState>) -> bool {
    match r {
        None => !can_serve(old, k) && new == old,
        Some(h) => {
            &&& can_serve(old, k)
            &&& exists|j: nat| #[trigger] first_free_order(old, k, j) && lowest_head(old, h as int, j)
                && forall|i: int| 0 <= i < NFRAME ==> #[trigger] new[i] == alloc_view(old, h as int, j, k, i)
        },
    }
}

/// Frame `i` after the free block of order `k + 1` at `h` was split in two halves.
pub open spec fn halves_view(old: Seq<BuddyState>, h: int, k: nat, i: int) -> BuddyState {
    if h <= i < h + order_frames(k) {
        BuddyAllocator::with_free_block(old, h, k, i)
    } else {
        BuddyAllocator::with_free_block(old, h + order_frames(k), k, i)
    }
}

/// One more split at the bottom of a chain of splits.
proof fn lemma_split_view_step(old: Seq<BuddyState>, h: int, j: nat, k: nat, i: int)
    requires
        j > k,
    ensures
        split_view(old, h, j, k, i) == (if h <= i < h + order_frames(k + 1) {
            halves_view(old, h, k, i)
        } else {
            split_view(old, h, j, k + 1, i)
        }),
    decreases j,
{
    lemma_order_double(k);
    if j == k + 1 {
    } else {
        lemma_order_double((j - 1) as nat);
        if k + 1 < j - 1 {
            vstd::arithmetic::power2::lemma_pow2_strictly_increases(k + 1, (j - 1) as nat);
        }
        lemma_split_view_step(old, h, (j - 1) as nat, k, i);
    }
}

/// The smallest order whose blocks hold `size` bytes at an alignment of `align`,
/// searching from order `m`; `LAYER_COUNT` when none does.
pub open spec fn layout_order_from(size: nat, align: nat, m: nat) -> nat
    decreases LAYER_COUNT - m,
{
    if m >= LAYER_COUNT || (order_bytes(m) >= size && order_bytes(m) >= align) {
        m
    } else {
        layout_order_from(size, align, m + 1)
    }
}

/// The order that a request of `size` bytes at alignment `align` is served from;
/// `LAYER_COUNT` when it is too large for any block.
pub open spec fn layout_order(size: nat, align: nat) -> nat {
    layout_order_from(size, align, 0)
}

/// Where freeing the block of order `k` at `h` ends: the block grows by its buddy
/// as long as the buddy is a free block of the same order.
pub open spec fn merge_target(frames: Seq<BuddyState>, h: int, k: nat) -> (int, nat)
    decreases LAYER_COUNT - k,
{
    if k + 1 < LAYER_COUNT && frames[buddy_of(h, k)] == BuddyState::Head(k as usize) {
        let b = buddy_of(h, k);
        merge_target(frames, if h < b { h } else { b }, k + 1)
    } else {
        (h, k)
    }
}

/// What freeing the block of order `k` at `h` does: the merged block becomes free,
/// every other frame keeps its state.
pub open spec fn free_post(old: Seq<BuddyState>, h: int, k: nat, new: Seq<BuddyState>) -> bool {
    let t = merge_target(old, h, k);
    forall|i: int| 0 <= i < NFRAME ==> #[trigger] new[i] == BuddyAllocator::with_free_block(old, t.0, t.1, i)
}

/// The frames of `[h, h + 2^k)` are all handed out.
pub open spec fn block_allocated(frames: Seq<BuddyState>, h: int, k: nat) -> bool {
    forall|i: int| h <= i < h + order_frames(k) ==> #[trigger] frames[i] == BuddyState::Allocated
}

/// `n` is a power of two.
pub open spec fn power_of_two(n: nat) -> bool {
    exists|e: nat| pow2(e) == n
}

/// The order found from `m` on serves the request, when it is an order at all.
pub proof fn lemma_layout_order(size: nat, align: nat, m: nat)
    ensures
        layout_order_from(size, align, m) >= m,
        layout_order_from(size, align, m) < LAYER_COUNT ==> order_bytes(layout_order_from(size, align, m)) >= size
            && order_bytes(layout_order_from(size, align, m)) >= align,
    decreases LAYER_COUNT - m,
{
    if m < LAYER_COUNT && !(order_bytes(m) >= size && order_bytes(m) >= align) {
        lemma_layout_order(size, align, m + 1);
    }
}

impl BuddyAllocator {
    /// The free index of each order holds exactly the heads of that order, in
    /// increasing order.
    pub open spec fn index_matches(&self) -> bool {
        &&& self.free_list@.len() == LAYER_COUNT
        &&& forall|k: int| 0 <= k < LAYER_COUNT ==> strictly_sorted(#[trigger] self.free_list@[k]@)
        &&& forall|k: int, i: usize| 0 <= k < LAYER_COUNT ==>
            (#[trigger] self.free_list@[k]@.contains(i) <==> (i < NFRAME && self.frames@[i as int] == BuddyState::Head(k as usize)))
    }

    pub open spec fn wf(&self) -> bool {
        &&& table_wf(self.frames@)
        &&& self.index_matches()
    }

    /// Nothing is free yet; reservations may be made.
    pub open spec fn is_fresh(&self) -> bool {
        &&& self.wf()
        &&& fresh_table(self.frames@)
    }

    /// An allocator before reservations and `init`: every frame unmanaged.
    pub fn new() -> (r: Self)
        ensures
            r.is_fresh(),
            forall|i: int| 0 <= i < NFRAME ==> #[trigger] r.frames@[i] == BuddyState::Allocated,
    {
        let mut frames: Vec<BuddyState> = Vec::new();
        let mut n: usize = 0;
        while n < NFRAME
            invariant
                n <= NFRAME,
                frames@.len() == n,
                forall|i: int| 0 <= i < n ==> #[trigger] frames@[i] == BuddyState::Allocated,
            decreases NFRAME - n,
        {
            frames.push(BuddyState::Allocated);
            n = n + 1;
        }
        let mut free_list: Vec<Vec<usize>> = Vec::new();
        let mut k: usize = 0;
        while k < LAYER_COUNT
            invariant
                k <= LAYER_COUNT,
                free_list@.len() == k,
                forall|j: int| 0 <= j < k ==> (#[trigger] free_list@[j])@.len() == 0,
            decreases LAYER_COUNT - k,
        {
            free_list.push(Vec::new());
            k = k + 1;
        }
        let r = BuddyAllocator { frames, free_list };
        assert forall|j: int, i: usize| 0 <= j < LAYER_COUNT implies
            (#[trigger] r.free_list@[j]@.contains(i) <==> (i < NFRAME && r.frames@[i as int] == BuddyState::Head(j as usize))) by {
            assert(r.free_list@[j]@.len() == 0);
        }
        r
    }

    /// Address of the first byte of frame `idx`.
    pub fn faddr(&self, idx: usize) -> (r: u32)
        requires
            idx < NFRAME,
        ensures
            r == frame_addr(idx as int),
    {
        MEMORY_START + (idx * FRAME_SIZE) as u32
    }

    /// Marks as reserved every frame that has a byte in `[start, end)`; frames of
    /// the range outside managed memory are ignored.
    pub fn reserve_by_addr_range(&mut self, start: u32, end: u32)
        requires
            old(self).is_fresh(),
        ensures
            final(self).is_fresh(),
            forall|i: int| 0 <= i < NFRAME ==> #[trigger] final(self).frames@[i] == (
                if start < frame_addr(i) + FRAME_SIZE && frame_addr(i) < end {
                    BuddyState::Owned(i as usize)
                } else {
                    old(self).frames@[i]
                }),
    {
        let mut idx: usize = 0;
        while idx < NFRAME
            invariant
                idx <= NFRAME,
                self.is_fresh(),
                self.frames@.len() == NFRAME,
                forall|i: int| 0 <= i < NFRAME ==> #[trigger] self.frames@[i] == (
                    if i < idx && start < frame_addr(i) + FRAME_SIZE && frame_addr(i) < end {
                        BuddyState::Owned(i as usize)
                    } else {
                        old(self).frames@[i]
                    }),
            decreases NFRAME - idx,
        {
            let lo: u64 = MEMORY_START as u64 + (idx * FRAME_SIZE) as u64;
            let hi: u64 = lo + FRAME_SIZE as u64;
            if (start as u64) < hi && lo < end as u64 {
                let ghost prev = self.frames@;
                self.frames.set(idx, BuddyState::Owned(idx));
                proof {
                    assert forall|h: int| 0 <= h < NFRAME implies #[trigger] head_ok(self.frames@, h) by {
                        assert(!(self.frames@[h] is Head));
                    }
                    assert forall|k: int, i: usize| 0 <= k < LAYER_COUNT implies
                        (#[trigger] self.free_list@[k]@.contains(i) <==> (i < NFRAME && self.frames@[i as int] == BuddyState::Head(k as usize))) by {
                        assert(self.free_list@[k]@.contains(i) <==> (i < NFRAME && prev[i as int] == BuddyState::Head(k as usize)));
                    }
                }
            }
            idx = idx + 1;
        }
    }

    /// Frame `i` after the free block of order `k` at `h` was written over `old`.
    pub open spec fn with_free_block(old: Seq<BuddyState>, h: int, k: nat, i: int) -> BuddyState {
        if h <= i < h + order_frames(k) {
            if i == h { BuddyState::Head(k as usize) } else { BuddyState::Owned(h as usize) }
        } else {
            old[i]
        }
    }

    /// Turns the frames of `[h, h + 2^k)`, none of them free, into a free block.
    fn make_free_block(&mut self, h: usize, k: usize)
        requires
            old(self).wf(),
            block_fits(h as int, k as nat),
            forall|i: int| h <= i < h + order_frames(k as nat) ==> !#[trigger] in_free_block(old(self).frames@, i),
        ensures
            final(self).wf(),
            forall|i: int| 0 <= i < NFRAME ==> #[trigger] final(self).frames@[i] == Self::with_free_block(old(self).frames@, h as int, k as nat, i),
    {
        let size = block_size(k);
        let ghost pre = self.frames@;
        let mut j: usize = 1;
        while j < size
            invariant
                1 <= j <= size,
                size == order_frames(k as nat),
                h + size <= NFRAME,
                self.free_list == old(self).free_list,
                self.frames@.len() == NFRAME,
                pre == old(self).frames@,
                forall|i: int| 0 <= i < NFRAME ==> #[trigger] self.frames@[i] == (
                    if h < i < h + j { BuddyState::Owned(h) } else { pre[i] }),
            decreases size - j,
        {
            self.frames.set(h + j, BuddyState::Owned(h));
            j = j + 1;
        }
        self.frames.set(h, BuddyState::Head(k));
        proof {
            assert(!in_free_block(pre, h as int));
            assert forall|i: int| 0 <= i < NFRAME implies #[trigger] self.frames@[i] == Self::with_free_block(pre, h as int, k as nat, i) by {}
            assert forall|g: int| 0 <= g < NFRAME implies #[trigger] head_ok(self.frames@, g) by {
                if self.frames@[g] is Head && g != h {
                    assert(head_ok(pre, g));
                    let kg = pre[g]->Head_0 as nat;
                    assert forall|i: int| g < i < g + order_frames(kg) implies #[trigger] self.frames@[i] == BuddyState::Owned(g as usize) by {
                        assert(pre[i] == BuddyState::Owned(g as usize));
                        if h <= i < h + size {
                            assert(covers(pre, g, i));
                            assert(in_free_block(pre, i));
                        }
                    }
                }
            }
        }
        let ghost mid = self.free_list@;
        sorted_insert(&mut self.free_list[k], h);
        proof {
            assert forall|m: int| 0 <= m < LAYER_COUNT implies strictly_sorted(#[trigger] self.free_list@[m]@) by {
                if m != k { assert(self.free_list@[m] == mid[m]); }
            }
            assert forall|m: int, i: usize| 0 <= m < LAYER_COUNT implies
                (#[trigger] self.free_list@[m]@.contains(i) <==> (i < NFRAME && self.frames@[i as int] == BuddyState::Head(m as usize))) by {
                assert(mid[m]@.contains(i) <==> (i < NFRAME && pre[i as int] == BuddyState::Head(m as usize)));
                if m != k { assert(self.free_list@[m] == mid[m]); }
                if i < NFRAME && h <= i < h + size {
                    assert(!in_free_block(pre, i as int));
                }
            }
        }
    }

    /// Takes the free block of order `k` at `h` out of the free index; its head
    /// becomes an allocated frame.
    fn take_free_block(&mut self, h: usize, k: usize)
        requires
            old(self).wf(),
            h < NFRAME,
            k < LAYER_COUNT,
            old(self).frames@[h as int] == BuddyState::Head(k),
        ensures
            final(self).wf(),
            final(self).frames@ == old(self).frames@.update(h as int, BuddyState::Allocated),
    {
        let ghost pre = self.frames@;
        let ghost mid = self.free_list@;
        assert(mid[k as int]@.contains(h));
        sorted_remove(&mut self.free_list[k], h);
        self.frames.set(h, BuddyState::Allocated);
        proof {
            assert forall|g: int| 0 <= g < NFRAME implies #[trigger] head_ok(self.frames@, g) by {
                if self.frames@[g] is Head {
                    assert(head_ok(pre, g));
                }
            }
            assert forall|m: int| 0 <= m < LAYER_COUNT implies strictly_sorted(#[trigger] self.free_list@[m]@) by {
                if m != k { assert(self.free_list@[m] == mid[m]); }
            }
            assert forall|m: int, i: usize| 0 <= m < LAYER_COUNT implies
                (#[trigger] self.free_list@[m]@.contains(i) <==> (i < NFRAME && self.frames@[i as int] == BuddyState::Head(m as usize))) by {
                assert(mid[m]@.contains(i) <==> (i < NFRAME && pre[i as int] == BuddyState::Head(m as usize)));
                if m != k { assert(self.free_list@[m] == mid[m]); }
            }
        }
    }

    /// Frees every frame that was not reserved, frame by frame from the lowest: a
    /// frame that is not yet in a block starts a block of the largest order that is
    /// aligned there and fits in memory.
    pub fn init(&mut self)
        requires
            old(self).is_fresh(),
        ensures
            final(self).wf(),
            coalesced(final(self).frames@),
            forall|h: int| 0 <= h < NFRAME && (#[trigger] final(self).frames@[h] is Head) ==> {
                &&& !(old(self).frames@[h] is Owned)
                &&& greedy_order(h, final(self).frames@[h]->Head_0 as nat)
            },
            forall|i: int| 0 <= i < NFRAME && !(old(self).frames@[i] is Owned) ==> #[trigger] in_free_block(final(self).frames@, i),
            forall|i: int| 0 <= i < NFRAME ==> #[trigger] in_free_block(final(self).frames@, i) || final(self).frames@[i] == old(self).frames@[i],
            reservations_respect_blocks(old(self).frames@) ==> forall|i: int| 0 <= i < NFRAME
                && #[trigger] in_free_block(final(self).frames@, i) ==> !(old(self).frames@[i] is Owned),
    {
        let ghost orig = self.frames@;
        let mut idx: usize = 0;
        while idx < NFRAME
            invariant
                idx <= NFRAME,
                self.wf(),
                orig == old(self).frames@,
                fresh_table(orig),
                forall|h: int| 0 <= h < NFRAME && (#[trigger] self.frames@[h] is Head) ==> {
                    &&& h < idx
                    &&& !(orig[h] is Owned)
                    &&& greedy_order(h, self.frames@[h]->Head_0 as nat)
                },
                forall|i: int| 0 <= i < idx && !(orig[i] is Owned) ==> #[trigger] in_free_block(self.frames@, i),
                forall|i: int| 0 <= i < NFRAME ==> #[trigger] in_free_block(self.frames@, i) || self.frames@[i] == orig[i],
            decreases NFRAME - idx,
        {
            let skip = match self.frames[idx] {
                BuddyState::Owned(_) => true,
                _ => false,
            };
            if !skip {
                assert(!in_free_block(self.frames@, idx as int));
                let mut layer: usize = LAYER_COUNT - 1;
                loop
                    invariant
                        layer < LAYER_COUNT,
                        idx < NFRAME,
                        forall|m: nat| layer < m < LAYER_COUNT ==> !#[trigger] block_fits(idx as int, m),
                    ensures
                        layer < LAYER_COUNT,
                        block_fits(idx as int, layer as nat),
                        forall|m: nat| layer < m < LAYER_COUNT ==> !#[trigger] block_fits(idx as int, m),
                    decreases layer,
                {
                    let size = block_size(layer);
                    proof {
                        lemma_order_values();
                    }
                    if idx % size == 0 && idx + size <= NFRAME {
                        break;
                    }
                    layer = layer - 1;
                }
                let ghost pre = self.frames@;
                proof {
                    assert(greedy_order(idx as int, layer as nat));
                    assert forall|i: int| idx <= i < idx + order_frames(layer as nat) implies !#[trigger] in_free_block(pre, i) by {
                        if in_free_block(pre, i) && i != idx {
                            let g = pre[i]->Owned_0 as int;
                            assert(head_ok(pre, g));
                            assert(covers(pre, g, i));
                            assert(g < idx);
                            assert(pre[idx as int] == BuddyState::Owned(g as usize));
                        }
                    }
                }
                self.make_free_block(idx, layer);
                proof {
                    assert forall|i: int| 0 <= i < NFRAME implies #[trigger] in_free_block(self.frames@, i) || self.frames@[i] == orig[i] by {
                        if !(idx <= i < idx + order_frames(layer as nat)) && in_free_block(pre, i) {
                            if !(pre[i] is Head) {
                                let g = pre[i]->Owned_0 as int;
                                assert(head_ok(pre, g));
                                assert(self.frames@[g] == pre[g]);
                            }
                        }
                        if idx < i < idx + order_frames(layer as nat) {
                            assert(covers(self.frames@, idx as int, i));
                        }
                    }
                    assert forall|i: int| 0 <= i < idx + 1 && !(orig[i] is Owned) implies #[trigger] in_free_block(self.frames@, i) by {
                        assert(self.frames@[i] == Self::with_free_block(pre, idx as int, layer as nat, i));
                        lemma_order_double(layer as nat);
                        if i < idx {
                            assert(in_free_block(pre, i));
                            if !(pre[i] is Head) {
                                let g = pre[i]->Owned_0 as int;
                                assert(head_ok(pre, g));
                                assert(self.frames@[g] == Self::with_free_block(pre, idx as int, layer as nat, g));
                                assert(self.frames@[g] == pre[g]);
                                assert(covers(self.frames@, g, i));
                            }
                        }
                    }
                }
            }
            idx = idx + 1;
        }
        proof {
            let f = self.frames@;
            assert forall|h: int| 0 <= h < NFRAME && (#[trigger] f[h] is Head) && f[h]->Head_0 + 1 < LAYER_COUNT
                implies f[buddy_of(h, f[h]->Head_0 as nat)] != f[h] by {
                let k = f[h]->Head_0 as nat;
                assert(head_ok(f, h));
                lemma_merge(h, k);
                let b = buddy_of(h, k);
                if f[b] == f[h] {
                    assert(head_ok(f, b));
                    let lo = if h < b { h } else { b };
                    assert(greedy_order(lo, k));
                    assert(!block_fits(lo, k + 1));
                }
            }
            if reservations_respect_blocks(orig) {
                assert forall|i: int| 0 <= i < NFRAME && #[trigger] in_free_block(f, i) implies !(orig[i] is Owned) by {
                    if !(f[i] is Head) {
                        let g = f[i]->Owned_0 as int;
                        assert(greedy_order(g, f[g]->Head_0 as nat));
                        assert(!(orig[g] is Owned));
                    }
                }
            }
        }
    }

    /// Splits the free block of order `k` at `h` into its two halves.
    fn split_frame(&mut self, h: usize, k: usize)
        requires
            old(self).wf(),
            h < NFRAME,
            1 <= k < LAYER_COUNT,
            old(self).frames@[h as int] == BuddyState::Head(k),
        ensures
            final(self).wf(),
            forall|i: int| 0 <= i < NFRAME ==> #[trigger] final(self).frames@[i] == halves_view(old(self).frames@, h as int, (k - 1) as nat, i),
    {
        let ghost pre = self.frames@;
        proof {
            assert(head_ok(pre, h as int));
            lemma_halves(h as int, (k - 1) as nat);
            lemma_order_double((k - 1) as nat);
        }
        self.take_free_block(h, k);
        let half = block_size(k - 1);
        let ghost s1 = self.frames@;
        proof {
            assert forall|i: int| h <= i < h + order_frames((k - 1) as nat) implies !#[trigger] in_free_block(s1, i) by {
                if i > h && s1[i] is Owned {
                    assert(s1[i] == BuddyState::Owned(h));
                }
            }
        }
        self.make_free_block(h, k - 1);
        let ghost s2 = self.frames@;
        proof {
            assert forall|i: int| h + half <= i < h + half + order_frames((k - 1) as nat) implies !#[trigger] in_free_block(s2, i) by {
                assert(s2[i] == Self::with_free_block(s1, h as int, (k - 1) as nat, i));
                assert(s1[i] == BuddyState::Owned(h));
                if in_free_block(s2, i) {
                    assert(covers(s2, h as int, i));
                }
            }
        }
        self.make_free_block(h + half, k - 1);
        proof {
            assert forall|i: int| 0 <= i < NFRAME implies #[trigger] self.frames@[i] == halves_view(pre, h as int, (k - 1) as nat, i) by {
                assert(s2[i] == Self::with_free_block(s1, h as int, (k - 1) as nat, i));
                assert(self.frames@[i] == Self::with_free_block(s2, (h + half) as int, (k - 1) as nat, i));
                if h < i < h + 2 * half {
                    assert(pre[i] == BuddyState::Owned(h));
                }
            }
        }
    }

    /// Finds the lowest free block of order `layer`, splitting a block of a higher
    /// order when that order has none.
    fn get_by_layer(&mut self, layer: usize) -> (r: Option<usize>)
        requires
            old(self).wf(),
            layer < LAYER_COUNT,
        ensures
            final(self).wf(),
            r is None <==> !can_serve(old(self).frames@, layer as nat),
            r is None ==> final(self).frames@ == old(self).frames@,
            r matches Some(h) ==> {
                &&& h < NFRAME
                &&& final(self).frames@[h as int] == BuddyState::Head(layer)
                &&& exists|j: nat| #[trigger] first_free_order(old(self).frames@, layer as nat, j) && lowest_head(old(self).frames@, h as int, j)
                    && forall|i: int| 0 <= i < NFRAME ==> #[trigger] final(self).frames@[i] == split_view(old(self).frames@, h as int, j, layer as nat, i)
            },
        decreases LAYER_COUNT - layer,
    {
        let ghost pre = self.frames@;
        if self.free_list[layer].len() > 0 {
            let h = self.free_list[layer][0];
            proof {
                let l = self.free_list@[layer as int]@;
                assert(l.contains(h));
                assert(head_ok(pre, h as int));
                assert forall|g: int| 0 <= g < h implies #[trigger] pre[g] != BuddyState::Head(layer) by {
                    if pre[g] == BuddyState::Head(layer) {
                        assert(l.contains(g as usize));
                        let p = choose|p: int| 0 <= p < l.len() && l[p] == g as usize;
                        if p > 0 { assert(l[0] < l[p]); }
                    }
                }
                assert(has_head_of_order(pre, layer as nat));
                assert(first_free_order(pre, layer as nat, layer as nat));
                assert(lowest_head(pre, h as int, layer as nat));
                assert forall|i: int| 0 <= i < NFRAME implies #[trigger] self.frames@[i] == split_view(pre, h as int, layer as nat, layer as nat, i) by {
                    if h < i < h + order_frames(layer as nat) {
                        assert(pre[i] == BuddyState::Owned(h));
                    }
                }
                assert(can_serve(pre, layer as nat));
            }
            return Some(h);
        }
        proof {
            assert(!has_head_of_order(pre, layer as nat)) by {
                if has_head_of_order(pre, layer as nat) {
                    let g = choose|g: int| 0 <= g < pre.len() && pre[g] == BuddyState::Head(layer);
                    assert(self.free_list@[layer as int]@.contains(g as usize));
                }
            }
        }
        if layer + 1 >= LAYER_COUNT {
            proof {
                if can_serve(pre, layer as nat) {
                    let j = choose|j: nat| layer <= j < LAYER_COUNT && #[trigger] has_head_of_order(pre, j);
                    assert(j == layer);
                }
            }
            return None;
        }
        proof {
            if can_serve(pre, layer as nat) {
                let j = choose|j: nat| layer <= j < LAYER_COUNT && #[trigger] has_head_of_order(pre, j);
                assert(j != layer);
                assert(can_serve(pre, (layer + 1) as nat));
            }
            if can_serve(pre, (layer + 1) as nat) {
                let j = choose|j: nat| layer + 1 <= j < LAYER_COUNT && #[trigger] has_head_of_order(pre, j);
                assert(can_serve(pre, layer as nat));
            }
        }
        match self.get_by_layer(layer + 1) {
            Some(h) => {
                let ghost s1 = self.frames@;
                self.split_frame(h, layer + 1);
                proof {
                    let j = choose|j: nat| #[trigger] first_free_order(pre, (layer + 1) as nat, j) && lowest_head(pre, h as int, j)
                        && forall|i: int| 0 <= i < NFRAME ==> #[trigger] s1[i] == split_view(pre, h as int, j, (layer + 1) as nat, i);
                    assert(first_free_order(pre, layer as nat, j)) by {
                        assert forall|m: nat| layer <= m < j implies !#[trigger] has_head_of_order(pre, m) by {
                            if m > layer {
                                assert(layer + 1 <= m < j);
                            }
                        }
                    }
                    lemma_order_double(layer as nat);
                    assert forall|i: int| 0 <= i < NFRAME implies #[trigger] self.frames@[i] == split_view(pre, h as int, j, layer as nat, i) by {
                        lemma_split_view_step(pre, h as int, j, layer as nat, i);
                        assert(self.frames@[i] == halves_view(s1, h as int, layer as nat, i));
                    }
                    assert(self.frames@[h as int] == halves_view(s1, h as int, layer as nat, h as int));
                }
                Some(h)
            }
            None => None,
        }
    }

    /// Hands out the free block whose first frame is `idx`.
    pub fn alloc_frame(&mut self, idx: usize)
        requires
            old(self).wf(),
            idx < NFRAME,
            old(self).frames@[idx as int] is Head,
        ensures
            final(self).wf(),
            forall|i: int| 0 <= i < NFRAME ==> #[trigger] final(self).frames@[i] == (
                if idx <= i < idx + order_frames(old(self).frames@[idx as int]->Head_0 as nat) {
                    BuddyState::Allocated
                } else {
                    old(self).frames@[i]
                }),
    {
        let layer = match self.frames[idx] {
            BuddyState::Head(l) => l,
            _ => {
                return;
            },
        };
        let ghost pre = self.frames@;
        proof {
            assert(head_ok(pre, idx as int));
        }
        self.take_free_block(idx, layer);
        let size = block_size(layer);
        let mut j: usize = 1;
        while j < size
            invariant
                1 <= j <= size,
                size == order_frames(layer as nat),
                idx + size <= NFRAME,
                head_ok(pre, idx as int),
                pre[idx as int] == BuddyState::Head(layer),
                self.wf(),
                forall|i: int| 0 <= i < NFRAME ==> #[trigger] self.frames@[i] == (
                    if idx <= i < idx + j { BuddyState::Allocated } else { pre[i] }),
            decreases size - j,
        {
            let ghost cur = self.frames@;
            proof {
                assert(cur[idx + j] == BuddyState::Owned(idx));
            }
            self.frames.set(idx + j, BuddyState::Allocated);
            proof {
                assert forall|g: int| 0 <= g < NFRAME implies #[trigger] head_ok(self.frames@, g) by {
                    assert(head_ok(cur, g));
                    if self.frames@[g] is Head {
                        let kg = cur[g]->Head_0 as nat;
                        if g < idx + j && idx + j < g + order_frames(kg) {
                            assert(cur[idx + j] == BuddyState::Owned(g as usize));
                        }
                    }
                }
                assert forall|m: int, i: usize| 0 <= m < LAYER_COUNT implies
                    (#[trigger] self.free_list@[m]@.contains(i) <==> (i < NFRAME && self.frames@[i as int] == BuddyState::Head(m as usize))) by {
                    assert(self.free_list@[m]@.contains(i) <==> (i < NFRAME && cur[i as int] == BuddyState::Head(m as usize)));
                }
            }
            j = j + 1;
        }
    }

    /// Serves a request of order `layer`.
    fn alloc_by_layer(&mut self, layer: usize) -> (r: Option<usize>)
        requires
            old(self).wf(),
            layer < LAYER_COUNT,
        ensures
            final(self).wf(),
            alloc_post(old(self).frames@, layer as nat, r, final(self).frames@),
    {
        let ghost pre = self.frames@;
        match self.get_by_layer(layer) {
            Some(idx) => {
                let ghost s1 = self.frames@;
                self.alloc_frame(idx);
                proof {
                    let j = choose|j: nat| #[trigger] first_free_order(pre, layer as nat, j) && lowest_head(pre, idx as int, j)
                        && forall|i: int| 0 <= i < NFRAME ==> #[trigger] s1[i] == split_view(pre, idx as int, j, layer as nat, i);
                    assert forall|i: int| 0 <= i < NFRAME implies #[trigger] self.frames@[i] == alloc_view(pre, idx as int, j, layer as nat, i) by {
                        assert(s1[i] == split_view(pre, idx as int, j, layer as nat, i));
                    }
                }
                Some(idx)
            },
            None => None,
        }
    }

    /// The order that a request of `size` bytes aligned to `align` is served from;
    /// `LAYER_COUNT` when no block is large enough.
    fn layout_layer(size: usize, align: usize) -> (r: usize)
        ensures
            r == layout_order(size as nat, align as nat),
            r <= LAYER_COUNT,
    {
        let mut layer: usize = 0;
        while layer < LAYER_COUNT
            invariant
                layer <= LAYER_COUNT,
                layout_order_from(size as nat, align as nat, layer as nat) == layout_order(size as nat, align as nat),
            decreases LAYER_COUNT - layer,
        {
            let bytes = block_size(layer) * FRAME_SIZE;
            if bytes >= size && bytes >= align {
                return layer;
            }
            layer = layer + 1;
        }
        layer
    }

    /// Hands out a block for `size` bytes aligned to `align`, and gives the index
    /// of its first frame.
    pub fn get_by_layout(&mut self, size: usize, align: usize) -> (r: Option<usize>)
        requires
            old(self).wf(),
        ensures
            final(self).wf(),
            layout_order(size as nat, align as nat) >= LAYER_COUNT ==> r is None && final(self).frames@ == old(self).frames@,
            layout_order(size as nat, align as nat) < LAYER_COUNT ==> alloc_post(old(self).frames@,
                layout_order(size as nat, align as nat), r, final(self).frames@),
    {
        let layer = Self::layout_layer(size, align);
        if layer < LAYER_COUNT {
            self.alloc_by_layer(layer)
        } else {
            None
        }
    }

    /// Hands out a block for `size` bytes aligned to `align`, and gives its address;
    /// `None` when memory is exhausted or no block is large enough.
    pub fn allocate(&mut self, size: usize, align: usize) -> (r: Option<u32>)
        requires
            old(self).wf(),
        ensures
            final(self).wf(),
            r is None <==> (layout_order(size as nat, align as nat) >= LAYER_COUNT
                || !can_serve(old(self).frames@, layout_order(size as nat, align as nat))),
            r is None ==> final(self).frames@ == old(self).frames@,
            r matches Some(a) ==> {
                &&& layout_order(size as nat, align as nat) < LAYER_COUNT
                &&& a as int % order_bytes(layout_order(size as nat, align as nat)) == 0
                &&& (power_of_two(align as nat) ==> a as int % align as int == 0)
                &&& exists|h: usize| a == frame_addr(h as int)
                    && alloc_post(old(self).frames@, layout_order(size as nat, align as nat), Some(h), final(self).frames@)
            },
    {
        let ghost k = layout_order(size as nat, align as nat);
        match self.get_by_layout(size, align) {
            Some(idx) => {
                proof {
                    let j = choose|j: nat| #[trigger] first_free_order(old(self).frames@, k, j) && lowest_head(old(self).frames@, idx as int, j)
                        && forall|i: int| 0 <= i < NFRAME ==> #[trigger] self.frames@[i] == alloc_view(old(self).frames@, idx as int, j, k, i);
                    assert(head_ok(old(self).frames@, idx as int));
                    lemma_block_aligned(idx as int, j, k);
                    lemma_layout_order(size as nat, align as nat, 0);
                    lemma_addr_aligned(idx as int, k, align as nat);
                }
                Some(self.faddr(idx))
            },
            None => None,
        }
    }

    /// Returns the handed-out block of order `layer` at `idx` to the free blocks,
    /// merging it with its buddy for as long as the buddy is free at the same order.
    pub fn free_by_idx(&mut self, idx: usize, layer: usize)
        requires
            old(self).wf(),
            block_fits(idx as int, layer as nat),
            block_allocated(old(self).frames@, idx as int, layer as nat),
        ensures
            final(self).wf(),
            free_post(old(self).frames@, idx as int, layer as nat, final(self).frames@),
    {
        let ghost pre = self.frames@;
        let ghost target = merge_target(pre, idx as int, layer as nat);
        let mut idx = idx;
        let mut layer = layer;
        loop
            invariant
                self.wf(),
                block_fits(idx as int, layer as nat),
                merge_target(pre, idx as int, layer as nat) == target,
                table_wf(pre),
                forall|i: int| 0 <= i < NFRAME && !(idx <= i < idx + order_frames(layer as nat)) ==> #[trigger] self.frames@[i] == pre[i],
                forall|i: int| idx <= i < idx + order_frames(layer as nat) ==> !#[trigger] in_free_block(self.frames@, i),
            ensures
                self.wf(),
                block_fits(idx as int, layer as nat),
                target == (idx as int, layer as nat),
                forall|i: int| 0 <= i < NFRAME && !(idx <= i < idx + order_frames(layer as nat)) ==> #[trigger] self.frames@[i] == pre[i],
                forall|i: int| idx <= i < idx + order_frames(layer as nat) ==> !#[trigger] in_free_block(self.frames@, i),
            decreases LAYER_COUNT - layer,
        {
            if layer + 1 >= LAYER_COUNT {
                break;
            }
            let size = block_size(layer);
            proof {
                lemma_merge(idx as int, layer as nat);
            }
            let buddy = if (idx / size) % 2 == 0 { idx + size } else { idx - size };
            if buddy >= NFRAME {
                break;
            }
            let merge = match self.frames[buddy] {
                BuddyState::Head(l) => l == layer,
                _ => false,
            };
            if !merge {
                break;
            }
            let ghost cur = self.frames@;
            proof {
                assert(cur[buddy as int] == pre[buddy as int]);
                assert(head_ok(cur, buddy as int));
            }
            self.take_free_block(buddy, layer);
            let lo = if idx < buddy { idx } else { buddy };
            proof {
                lemma_order_double(layer as nat);
                let s1 = self.frames@;
                assert forall|i: int| lo <= i < lo + order_frames((layer + 1) as nat) implies !#[trigger] in_free_block(s1, i) by {
                    assert(buddy as int == buddy_of(idx as int, layer as nat));
                    assert(s1[buddy as int] == BuddyState::Allocated);
                    assert((idx <= i < idx + size) || (buddy <= i < buddy + size));
                    if buddy < i < buddy + size {
                        assert(cur[i] == BuddyState::Owned(buddy));
                        assert(s1[i] == BuddyState::Owned(buddy));
                        assert(!covers(s1, buddy as int, i));
                        assert(!in_free_block(s1, i));
                    }
                    if idx <= i < idx + size && in_free_block(s1, i) {
                        assert(!in_free_block(cur, i));
                        assert(s1[i] == cur[i]);
                        if s1[i] is Owned {
                            let g = s1[i]->Owned_0 as int;
                            assert(g != buddy);
                            assert(cur[g] == s1[g]);
                            assert(in_free_block(cur, i));
                        }
                    }
                }
            }
            idx = lo;
            layer = layer + 1;
        }
        let ghost cur = self.frames@;
        self.make_free_block(idx, layer);
        proof {
            assert forall|i: int| 0 <= i < NFRAME implies #[trigger] self.frames@[i] == Self::with_free_block(pre, target.0, target.1, i) by {
                assert(self.frames@[i] == Self::with_free_block(cur, idx as int, layer as nat, i));
            }
        }
    }

    /// Returns the block at address `addr` that was handed out for `size` bytes
    /// aligned to `align`.
    pub fn free_by_layout(&mut self, addr: u32, size: usize, align: usize)
        requires
            old(self).wf(),
            MEMORY_START <= addr,
            (addr - MEMORY_START) as int % FRAME_SIZE as int == 0,
            block_fits(frame_index(addr as int), layout_order(size as nat, align as nat)),
            block_allocated(old(self).frames@, frame_index(addr as int), layout_order(size as nat, align as nat)),
        ensures
            final(self).wf(),
            free_post(old(self).frames@, frame_index(addr as int), layout_order(size as nat, align as nat), final(self).frames@),
    {
        let idx = (addr - MEMORY_START) as usize / FRAME_SIZE;
        let layer = Self::layout_layer(size, align);
        self.free_by_idx(idx, layer);
    }
}

/// Splitting a free block changes no frame outside it.
proof fn lemma_split_view_outside(old: Seq<BuddyState>, h: int, j: nat, k: nat, i: int)
    requires
        k <= j,
        !(h <= i < h + order_frames(j)),
    ensures
        split_view(old, h, j, k, i) == old[i],
    decreases j,
{
    if j > k {
        lemma_order_double((j - 1) as nat);
        lemma_split_view_outside(old, h, (j - 1) as nat, k, i);
    }
}

/// Serving a request never takes a frame that was handed out before, and hands out
/// a block whose first frame was free.
pub proof fn lemma_alloc_keeps_allocated(old: Seq<BuddyState>, k: nat, r: Option<usize>, new: Seq<BuddyState>)
    requires
        table_wf(old),
        alloc_post(old, k, r, new),
    ensures
        forall|i: int| 0 <= i < NFRAME && old[i] == BuddyState::Allocated ==> #[trigger] new[i] == BuddyState::Allocated,
        r matches Some(h) ==> h < NFRAME && old[h as int] != BuddyState::Allocated && new[h as int] == BuddyState::Allocated,
{
    if let Some(h) = r {
        let j = choose|j: nat| #[trigger] first_free_order(old, k, j) && lowest_head(old, h as int, j)
            && forall|i: int| 0 <= i < NFRAME ==> #[trigger] new[i] == alloc_view(old, h as int, j, k, i);
        assert(head_ok(old, h as int));
        lemma_order_double(k);
        assert(new[h as int] == alloc_view(old, h as int, j, k, h as int));
        assert forall|i: int| 0 <= i < NFRAME && old[i] == BuddyState::Allocated implies #[trigger] new[i] == BuddyState::Allocated by {
            assert(new[i] == alloc_view(old, h as int, j, k, i));
            if !(h <= i < h + order_frames(j)) {
                lemma_split_view_outside(old, h as int, j, k, i);
            }
        }
    }
}

/// Inside a chain of splits, the upper half made at each order is a free block.
proof fn lemma_split_view_head(old: Seq<BuddyState>, h: int, j: nat, k: nat, m: nat)
    requires
        k <= m < j,
    ensures
        split_view(old, h, j, k, h + order_frames(m)) == BuddyState::Head(m as usize),
    decreases j,
{
    lemma_order_double(m);
    lemma_order_double((j - 1) as nat);
    if m + 1 < j {
        vstd::arithmetic::power2::lemma_pow2_strictly_increases(m, (j - 1) as nat);
        if m + 1 < j - 1 {
            vstd::arithmetic::power2::lemma_pow2_strictly_increases(m + 1, (j - 1) as nat);
        }
        lemma_split_view_head(old, h, (j - 1) as nat, k, m);
    }
}

/// Freeing the block just carved at `h` merges it back up to the block it came from.
proof fn lemma_merge_back(old: Seq<BuddyState>, h: int, j: nat, k: nat, m: nat, new: Seq<BuddyState>)
    requires
        table_wf(old),
        coalesced(old),
        0 <= h < NFRAME,
        j < LAYER_COUNT,
        old[h] == BuddyState::Head(j as usize),
        k <= m <= j,
        forall|i: int| 0 <= i < NFRAME ==> #[trigger] new[i] == alloc_view(old, h, j, k, i),
    ensures
        merge_target(new, h, m) == (h, j),
    decreases j - m,
{
    assert(head_ok(old, h));
    lemma_order_double(m);
    if m < j {
        lemma_block_aligned(h, j, m + 1);
        lemma_halves(h, m);
        lemma_split_view_head(old, h, j, k, m);
        if k < m {
            vstd::arithmetic::power2::lemma_pow2_strictly_increases(k, m);
        }
        assert(new[h + order_frames(m)] == alloc_view(old, h, j, k, h + order_frames(m)));
        lemma_merge_back(old, h, j, k, m + 1, new);
    } else if m + 1 < LAYER_COUNT {
        lemma_merge(h, m);
        let b = buddy_of(h, m);
        assert(new[b] == alloc_view(old, h, j, k, b));
        if k < m {
            vstd::arithmetic::power2::lemma_pow2_strictly_increases(k, m);
        }
        lemma_split_view_outside(old, h, j, k, b);
    }
}

/// Freeing a block right after it was handed out, with the same order, restores
/// the frame table exactly, so the same request is then served at the same
/// address; this holds whenever every possible merge had been made before.
pub proof fn lemma_round_trip(s0: Seq<BuddyState>, k: nat, h: usize, s1: Seq<BuddyState>, s2: Seq<BuddyState>)
    requires
        table_wf(s0),
        coalesced(s0),
        alloc_post(s0, k, Some(h), s1),
        free_post(s1, h as int, k, s2),
        s2.len() == NFRAME,
    ensures
        s2 == s0,
        forall|r: Option<usize>, s3: Seq<BuddyState>| #[trigger] alloc_post(s2, k, r, s3) ==> r == Some(h),
{
    let j = choose|j: nat| #[trigger] first_free_order(s0, k, j) && lowest_head(s0, h as int, j)
        && forall|i: int| 0 <= i < NFRAME ==> #[trigger] s1[i] == alloc_view(s0, h as int, j, k, i);
    lemma_merge_back(s0, h as int, j, k, k, s1);
    assert(head_ok(s0, h as int));
    lemma_order_double(k);
    if k < j {
        vstd::arithmetic::power2::lemma_pow2_strictly_increases(k, j);
    }
    assert forall|i: int| 0 <= i < NFRAME implies s2[i] == s0[i] by {
        assert(s2[i] == BuddyAllocator::with_free_block(s1, h as int, j, i));
        if !(h <= i < h + order_frames(j)) {
            assert(s1[i] == alloc_view(s0, h as int, j, k, i));
            lemma_split_view_outside(s0, h as int, j, k, i);
        }
    }
    assert(s2 =~= s0);
    assert forall|r: Option<usize>, s3: Seq<BuddyState>| #[trigger] alloc_post(s2, k, r, s3) implies r == Some(h) by {
        assert(can_serve(s0, k));
        if let Some(g) = r {
            let j2 = choose|j2: nat| #[trigger] first_free_order(s0, k, j2) && lowest_head(s0, g as int, j2)
                && forall|i: int| 0 <= i < NFRAME ==> #[trigger] s3[i] == alloc_view(s0, g as int, j2, k, i);
            if j2 < j {
                assert(!has_head_of_order(s0, j2));
            } else if j < j2 {
                assert(!has_head_of_order(s0, j));
            }
            if g < h {
                assert(s0[g as int] != BuddyState::Head(j as usize));
            } else if h < g {
                assert(s0[h as int] != BuddyState::Head(j as usize));
            }
        }
    }
}

/// The block found by merging from `h` holds the block that was freed.
proof fn lemma_merge_target_holds(frames: Seq<BuddyState>, h: int, k: nat)
    requires
        block_fits(h, k),
    ensures
        block_fits(merge_target(frames, h, k).0, merge_target(frames, h, k).1),
        merge_target(frames, h, k).1 >= k,
        merge_target(frames, h, k).1 < LAYER_COUNT,
        merge_target(frames, h, k).0 <= h,
        h + order_frames(k) <= merge_target(frames, h, k).0 + order_frames(merge_target(frames, h, k).1),
    decreases LAYER_COUNT - k,
{
    if k + 1 < LAYER_COUNT && frames[buddy_of(h, k)] == BuddyState::Head(k as usize) {
        lemma_merge(h, k);
        lemma_order_double(k);
        let b = buddy_of(h, k);
        let lo = if h < b { h } else { b };
        lemma_merge_target_holds(frames, lo, k + 1);
    }
}

/// Freeing two buddy blocks of order `k`, in either order, leaves their union
/// inside one free block of a higher order.
pub proof fn lemma_merge_complete(s0: Seq<BuddyState>, a: int, k: nat, s1: Seq<BuddyState>, s2: Seq<BuddyState>)
    requires
        table_wf(s0),
        k + 1 < LAYER_COUNT,
        block_fits(a, k),
        block_allocated(s0, a, k),
        block_allocated(s0, buddy_of(a, k), k),
        free_post(s0, a, k, s1),
        free_post(s1, buddy_of(a, k), k, s2),
        s1.len() == NFRAME,
        s2.len() == NFRAME,
    ensures
        ({
            let b = buddy_of(a, k);
            let lo = if a < b { a } else { b };
            exists|h: int| #[trigger] s2[h] is Head && k + 1 <= s2[h]->Head_0 && h <= lo
                && lo + order_frames(k + 1) <= h + order_frames(s2[h]->Head_0 as nat)
        }),
{
    let b = buddy_of(a, k);
    lemma_merge(a, k);
    lemma_order_double(k);
    let lo = if a < b { a } else { b };
    assert(s0[b] == BuddyState::Allocated);
    assert(merge_target(s0, a, k) == (a, k));
    assert(s1[a] == BuddyAllocator::with_free_block(s0, a, k, a));
    assert(s1[a] == BuddyState::Head(k as usize));
    lemma_merge(b, k);
    assert(merge_target(s1, b, k) == merge_target(s1, lo, k + 1));
    lemma_merge_target_holds(s1, lo, k + 1);
    let t = merge_target(s1, lo, k + 1);
    lemma_order_double(t.1);
    crate::frame::lemma_order_values();
    assert(s2[t.0] == BuddyAllocator::with_free_block(s1, t.0, t.1, t.0));
    assert(s2[t.0] is Head);
}

/// Each frame of a chain of splits lies in the bottom block or in exactly one of
/// the upper halves.
proof fn lemma_split_view_cases(old: Seq<BuddyState>, h: int, j: nat, k: nat, i: int)
    requires
        k <= j,
        h <= i < h + order_frames(j),
    ensures
        (h <= i < h + order_frames(k) && split_view(old, h, j, k, i) == BuddyAllocator::with_free_block(old, h, k, i))
        || (exists|m: nat| k <= m < j && h + order_frames(m) <= i < h + order_frames(m + 1)
            && #[trigger] split_view(old, h, j, k, i) == BuddyAllocator::with_free_block(old, h + order_frames(m), m, i)),
    decreases j,
{
    if j > k {
        let m = (j - 1) as nat;
        lemma_order_double(m);
        if !(h + order_frames(m) <= i) {
            lemma_split_view_cases(old, h, m, k, i);
        }
    }
}

/// One frame before and after a single frame was carved from the free block of
/// order `j` at `h`.
proof fn lemma_free_frame_after_alloc(s0: Seq<BuddyState>, h: usize, j: nat, s1: Seq<BuddyState>, i: int)
    requires
        table_wf(s0),
        s1.len() == NFRAME,
        j < LAYER_COUNT,
        h < NFRAME,
        s0[h as int] == BuddyState::Head(j as usize),
        forall|x: int| 0 <= x < NFRAME ==> #[trigger] s1[x] == alloc_view(s0, h as int, j, 0, x),
    ensures
        (0 <= i < NFRAME && in_free_block(s1, i)) <==> (0 <= i < NFRAME && in_free_block(s0, i) && i != h),
{
    assert(head_ok(s0, h as int));
    lemma_order_double(0);
    crate::frame::lemma_order_values();
    if 0 <= i < NFRAME {
        assert(s1[i] == alloc_view(s0, h as int, j, 0, i));
        if h <= i < h + order_frames(j) {
            assert(in_free_block(s0, i));
            if i != h {
                lemma_split_view_cases(s0, h as int, j, 0, i);
                let m = choose|m: nat| 0 <= m < j && h + order_frames(m) <= i < h + order_frames(m + 1)
                    && #[trigger] split_view(s0, h as int, j, 0, i) == BuddyAllocator::with_free_block(s0, h + order_frames(m), m, i);
                let b = h + order_frames(m);
                lemma_split_view_head(s0, h as int, j, 0, m);
                lemma_order_double(m);
                assert(s1[b] == alloc_view(s0, h as int, j, 0, b));
                if i != b {
                    assert(covers(s1, b, i));
                }
            }
        } else {
            lemma_split_view_outside(s0, h as int, j, 0, i);
            if in_free_block(s1, i) && !(s1[i] is Head) {
                let g = s1[i]->Owned_0 as int;
                assert(s1[g] == alloc_view(s0, h as int, j, 0, g));
                if h <= g < h + order_frames(j) {
                    assert(g != h);
                    lemma_split_view_cases(s0, h as int, j, 0, g);
                    let m = choose|m: nat| 0 <= m < j && h + order_frames(m) <= g < h + order_frames(m + 1)
                        && #[trigger] split_view(s0, h as int, j, 0, g) == BuddyAllocator::with_free_block(s0, h + order_frames(m), m, g);
                    lemma_order_double(m);
                    if m + 1 < j {
                        vstd::arithmetic::power2::lemma_pow2_strictly_increases(m + 1, j);
                    }
                    assert(g == h + order_frames(m));
                } else {
                    lemma_split_view_outside(s0, h as int, j, 0, g);
                }
            }
            if in_free_block(s0, i) && !(s0[i] is Head) {
                let g = s0[i]->Owned_0 as int;
                if h <= g < h + order_frames(j) {
                    if g != h {
                        assert(s0[g] == BuddyState::Owned(h));
                    }
                } else {
                    lemma_split_view_outside(s0, h as int, j, 0, g);
                    assert(s1[g] == alloc_view(s0, h as int, j, 0, g));
                }
            }
        }
    }
}

/// In a well-formed table a frame lies in at most one free block.
pub proof fn lemma_block_unique(frames: Seq<BuddyState>, i: int, g1: int, g2: int)
    requires
        table_wf(frames),
        covers(frames, g1, i),
        covers(frames, g2, i),
    ensures
        g1 == g2,
{
    assert(head_ok(frames, g1));
    assert(head_ok(frames, g2));
    if g1 < g2 {
        assert(frames[g2] == BuddyState::Owned(g1 as usize));
    } else if g2 < g1 {
        assert(frames[g1] == BuddyState::Owned(g2 as usize));
    }
}

/// The frames that lie in free blocks.
pub open spec fn free_frames(frames: Seq<BuddyState>) -> Set<int> {
    Set::new(|i: int| 0 <= i < NFRAME && in_free_block(frames, i))
}

/// Exhaustion: a request for one frame fails exactly when no frame is free, and
/// otherwise takes exactly one free frame. Requests for single frames therefore
/// obtain every free frame, one by one, before the first one fails.
pub proof fn lemma_exhaustion(s0: Seq<BuddyState>, r: Option<usize>, s1: Seq<BuddyState>)
    requires
        table_wf(s0),
        alloc_post(s0, 0, r, s1),
        s1.len() == NFRAME,
    ensures
        free_frames(s0).finite(),
        r is None <==> free_frames(s0).len() == 0,
        r matches Some(h) ==> free_frames(s0).contains(h as int) && free_frames(s1) == free_frames(s0).remove(h as int)
            && free_frames(s1).len() + 1 == free_frames(s0).len(),
{
    vstd::set_lib::lemma_int_range(0, NFRAME as int);
    vstd::set_lib::lemma_len_subset(free_frames(s0), vstd::set_lib::set_int_range(0, NFRAME as int));
    match r {
        None => {
            assert forall|i: int| !free_frames(s0).contains(i) by {
                if 0 <= i < NFRAME && in_free_block(s0, i) {
                    let g = if s0[i] is Head { i } else { s0[i]->Owned_0 as int };
                    assert(head_ok(s0, g));
                    assert(has_head_of_order(s0, s0[g]->Head_0 as nat));
                }
            }
            assert(free_frames(s0) =~= Set::empty());
        },
        Some(h) => {
            let j = choose|j: nat| #[trigger] first_free_order(s0, 0, j) && lowest_head(s0, h as int, j)
                && forall|i: int| 0 <= i < NFRAME ==> #[trigger] s1[i] == alloc_view(s0, h as int, j, 0, i);
            assert(head_ok(s0, h as int));
            lemma_order_double(0);
            crate::frame::lemma_order_values();
            assert forall|i: int| #[trigger] free_frames(s1).contains(i) <==> free_frames(s0).remove(h as int).contains(i) by {
                lemma_free_frame_after_alloc(s0, h, j, s1, i);
            }
            assert(free_frames(s1) =~= free_frames(s0).remove(h as int));
            assert(free_frames(s0).contains(h as int));
        },
    }
}

/// A block aligned to a higher order is aligned to every lower one.
proof fn lemma_block_aligned(h: int, j: nat, k: nat)
    requires
        block_fits(h, j),
        k <= j,
    ensures
        block_fits(h, k),
{
    vstd::arithmetic::power2::lemma_pow2_adds(k, (j - k) as nat);
    let p = order_frames(k);
    let q = order_frames((j - k) as nat);
    assert(order_frames(j) == p * q);
    lemma_order_double(k);
    lemma_order_double((j - k) as nat);
    assert(p * q >= 1) by (nonlinear_arith) requires p >= 1, q >= 1;
    let m = h / (p * q);
    assert(h == (p * q) * m) by (nonlinear_arith)
        requires h % (p * q) == 0, p * q >= 1, m == h / (p * q);
    assert(h == p * (q * m)) by (nonlinear_arith)
        requires h == (p * q) * m;
    assert(h % p == 0) by (nonlinear_arith)
        requires h == p * (q * m), p >= 1, h >= 0;
    assert(p <= p * q) by (nonlinear_arith)
        requires p >= 1, q >= 1;
}

/// The address of a block of order `k` is a multiple of its size in bytes, and of
/// every power of two up to that size.
proof fn lemma_addr_aligned(h: int, k: nat, align: nat)
    requires
        block_fits(h, k),
    ensures
        frame_addr(h) % order_bytes(k) == 0,
        power_of_two(align) && align <= order_bytes(k) ==> frame_addr(h) % (align as int) == 0,
{
    lemma_order_values();
    lemma_order_double(k);
    let p = order_frames(k);
    let b = order_bytes(k);
    assert(b == p * 4096);
    vstd::arithmetic::power2::lemma_pow2_adds(k, 12);
    vstd::arithmetic::power2::lemma2_to64();
    assert(b == pow2(k + 12));
    assert(k <= 11);
    vstd::arithmetic::power2::lemma_pow2_adds(k + 12, (16 - k) as nat);
    assert(MEMORY_START as int == b * pow2((16 - k) as nat));
    vstd::arithmetic::power2::lemma_pow2_pos(k + 12);
    assert(MEMORY_START as int % b == 0) by (nonlinear_arith)
        requires MEMORY_START as int == b * pow2((16 - k) as nat), b >= 1;
    let m = h / p;
    assert(h == p * m) by (nonlinear_arith)
        requires h % p == 0, p >= 1, m == h / p;
    let c = MEMORY_START as int / b;
    assert(b >= 1) by (nonlinear_arith) requires b == p * 4096, p >= 1;
    assert(MEMORY_START as int == b * c) by (nonlinear_arith)
        requires MEMORY_START as int % b == 0, b >= 1, c == MEMORY_START as int / b;
    assert(frame_addr(h) == b * (c + m)) by (nonlinear_arith)
        requires h == p * m, b == p * 4096, MEMORY_START as int == b * c, frame_addr(h) == MEMORY_START + h * FRAME_SIZE, FRAME_SIZE == 4096;
    assert(c + m >= 0) by (nonlinear_arith) requires h >= 0, p >= 1, h == p * m, c == MEMORY_START as int / b, b >= 1;
    assert(frame_addr(h) % b == 0) by (nonlinear_arith)
        requires frame_addr(h) == b * (c + m), b >= 1, c + m >= 0;
    if power_of_two(align) && align <= order_bytes(k) {
        let e = choose|e: nat| pow2(e) == align;
        if e > k + 12 {
            vstd::arithmetic::power2::lemma_pow2_strictly_increases(k + 12, e);
        }
        vstd::arithmetic::power2::lemma_pow2_adds(e, (k + 12 - e) as nat);
        let r = pow2((k + 12 - e) as nat) as int;
        vstd::arithmetic::power2::lemma_pow2_pos(e);
        assert(b == align * r);
        assert(frame_addr(h) == align * (r * (c + m))) by (nonlinear_arith)
            requires frame_addr(h) == b * (c + m), b == align * r;
        assert(r * (c + m) >= 0) by (nonlinear_arith) requires r >= 0, c + m >= 0;
        assert(frame_addr(h) % (align as int) == 0) by (nonlinear_arith)
            requires frame_addr(h) == align * (r * (c + m)), align >= 1, r * (c + m) >= 0;
    }
}

} // verus!
