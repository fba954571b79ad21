use kernel::buddy::{BuddyAllocator, BuddyState};
use kernel::frame::{FRAME_SIZE, MEMORY_START, NFRAME};

fn ready_allocator() -> BuddyAllocator {
    let mut a = BuddyAllocator::new();
    a.init();
    a
}

#[test]
fn new_allocator_manages_nothing() {
    let a = BuddyAllocator::new();
    assert_eq!(a.frames.len(), NFRAME);
    assert!(a.frames.iter().all(|f| *f == BuddyState::Allocated));
    assert!(a.free_list.iter().all(|l| l.is_empty()));
}

#[test]
fn init_without_reservations_makes_one_block() {
    let a = ready_allocator();
    assert_eq!(a.frames[0], BuddyState::Head(11));
    assert_eq!(a.frames[1], BuddyState::Owned(0));
    assert_eq!(a.frames[NFRAME - 1], BuddyState::Owned(0));
    assert_eq!(a.free_list[11], vec![0]);
}

#[test]
fn init_covers_every_unreserved_frame_once() {
    let mut a = BuddyAllocator::new();
    a.reserve_by_addr_range(MEMORY_START, MEMORY_START + 0x3000);
    a.init();
    for i in 0..3 {
        assert_eq!(a.frames[i], BuddyState::Owned(i));
    }
    assert_eq!(a.frames[3], BuddyState::Head(0));
    assert_eq!(a.frames[4], BuddyState::Head(2));
    assert_eq!(a.frames[8], BuddyState::Head(3));
    assert_eq!(a.frames[1024], BuddyState::Head(10));
    // Every frame from 3 on lies in exactly one free block.
    for i in 3..NFRAME {
        let heads: Vec<usize> = (0..=i)
            .filter(|&h| match a.frames[h] {
                BuddyState::Head(k) => i < h + (1 << k),
                _ => false,
            })
            .collect();
        assert_eq!(heads.len(), 1, "frame {}", i);
    }
}

#[test]
fn reservation_outside_memory_is_ignored() {
    let mut a = BuddyAllocator::new();
    a.reserve_by_addr_range(0x0, 0x8_0000);
    a.init();
    assert_eq!(a.frames[0], BuddyState::Head(11));
}

#[test]
fn reservation_takes_partly_covered_frames() {
    let mut a = BuddyAllocator::new();
    a.reserve_by_addr_range(MEMORY_START + 0x10, MEMORY_START + 0x1001);
    assert_eq!(a.frames[0], BuddyState::Owned(0));
    assert_eq!(a.frames[1], BuddyState::Owned(1));
    assert_eq!(a.frames[2], BuddyState::Allocated);
}

#[test]
fn faddr_gives_frame_address() {
    let a = BuddyAllocator::new();
    assert_eq!(a.faddr(0), MEMORY_START);
    assert_eq!(a.faddr(5), MEMORY_START + 5 * FRAME_SIZE as u32);
}

#[test]
fn allocations_take_lowest_blocks_first() {
    let mut a = ready_allocator();
    assert_eq!(a.allocate(4096, 8), Some(MEMORY_START));
    assert_eq!(a.allocate(4096, 8), Some(MEMORY_START + 0x1000));
    assert_eq!(a.allocate(1, 1), Some(MEMORY_START + 0x2000));
    assert_eq!(a.frames[0], BuddyState::Allocated);
    assert_eq!(a.frames[3], BuddyState::Head(0));
    assert_eq!(a.frames[4], BuddyState::Head(2));
}

#[test]
fn allocation_is_aligned() {
    let mut a = ready_allocator();
    assert_eq!(a.allocate(4096, 4096), Some(MEMORY_START));
    let addr = a.allocate(100, 0x4000).unwrap();
    assert_eq!(addr % 0x4000, 0);
    assert_eq!(addr, MEMORY_START + 0x4000);
    let big = a.allocate(0x3000, 16).unwrap();
    assert_eq!(big % 0x4000, 0);
}

#[test]
fn too_large_request_fails() {
    let mut a = ready_allocator();
    assert_eq!(a.allocate(0x80_0001, 8), None);
    assert_eq!(a.allocate(8, 0x100_0000), None);
    assert_eq!(a.frames[0], BuddyState::Head(11));
    assert_eq!(a.allocate(0x80_0000, 8), Some(MEMORY_START));
    assert_eq!(a.allocate(1, 1), None);
}

#[test]
fn get_by_layout_gives_index() {
    let mut a = ready_allocator();
    assert_eq!(a.get_by_layout(0x2000, 16), Some(0));
    assert_eq!(a.get_by_layout(0x1000, 16), Some(2));
    assert_eq!(a.get_by_layout(0x2000, 16), Some(4));
}

#[test]
fn alloc_frame_takes_given_block() {
    let mut a = ready_allocator();
    a.alloc_frame(0);
    assert!(a.frames.iter().all(|f| *f == BuddyState::Allocated));
    assert!(a.free_list[11].is_empty());
}

#[test]
fn round_trip_gives_same_address() {
    let mut a = ready_allocator();
    let first = a.allocate(0x2000, 16).unwrap();
    let before: Vec<BuddyState> = a.frames.clone();
    let addr = a.allocate(0x1000, 0x1000).unwrap();
    a.free_by_layout(addr, 0x1000, 0x1000);
    assert_eq!(a.frames, before);
    assert_eq!(a.allocate(0x1000, 0x1000), Some(addr));
    assert_ne!(first, addr);
}

#[test]
fn buddies_merge_in_either_order() {
    for flip in [false, true] {
        let mut a = ready_allocator();
        let x = a.allocate(0x1000, 8).unwrap();
        let y = a.allocate(0x1000, 8).unwrap();
        let _z = a.allocate(0x2000, 8).unwrap();
        if flip {
            a.free_by_layout(y, 0x1000, 8);
            a.free_by_layout(x, 0x1000, 8);
        } else {
            a.free_by_layout(x, 0x1000, 8);
            a.free_by_layout(y, 0x1000, 8);
        }
        assert_eq!(a.frames[0], BuddyState::Head(1));
        assert_eq!(a.allocate(0x2000, 8), Some(x));
    }
}

#[test]
fn full_free_restores_single_block() {
    let mut a = ready_allocator();
    let x = a.allocate(0x1000, 8).unwrap();
    let y = a.allocate(0x1000, 8).unwrap();
    a.free_by_layout(x, 0x1000, 8);
    a.free_by_layout(y, 0x1000, 8);
    assert_eq!(a.frames[0], BuddyState::Head(11));
    assert_eq!(a.free_list[11], vec![0]);
    for k in 0..11 {
        assert!(a.free_list[k].is_empty());
    }
}

#[test]
fn free_by_idx_merges_up() {
    let mut a = ready_allocator();
    assert_eq!(a.get_by_layout(0x1000, 8), Some(0));
    a.free_by_idx(0, 0);
    assert_eq!(a.frames[0], BuddyState::Head(11));
}

#[test]
fn exhaustion_yields_every_free_frame() {
    let mut a = BuddyAllocator::new();
    a.reserve_by_addr_range(MEMORY_START, MEMORY_START + 0x5000);
    a.init();
    let mut count = 0usize;
    while let Some(addr) = a.allocate(1, 1) {
        assert_eq!(addr % FRAME_SIZE as u32, 0);
        count += 1;
    }
    assert_eq!(count, NFRAME - 5);
    assert_eq!(count * FRAME_SIZE, 0x80_0000 - 0x5000);
}

#[test]
fn init_takes_reserved_frame_inside_aligned_block() {
    // Frame 0 is free, so the scan starts a block of the largest order there, and
    // that block holds the reserved frame 1.
    let mut a = BuddyAllocator::new();
    a.reserve_by_addr_range(MEMORY_START + 0x1000, MEMORY_START + 0x2000);
    assert_eq!(a.frames[1], BuddyState::Owned(1));
    a.init();
    assert_eq!(a.frames[0], BuddyState::Head(11));
    assert_eq!(a.frames[1], BuddyState::Owned(0));
}
