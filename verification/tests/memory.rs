use kiri_core::Align;
use kiri_core::memory::BlockAllocator;
use kiri_core::memory::BumpAllocator;
use kiri_core::memory::DynamicAllocator;
use kiri_core::memory::RingAllocator;

#[test]
fn align() {
    assert_eq!(0, 0u32.align(64));
    assert_eq!(64, 50u32.align(64));
    assert_eq!(64, 64u32.align(64));
    assert_eq!(128, 100u32.align(64));
    assert_eq!(128, 128u32.align(64));
}

#[test]
fn ring_allocator() {
    let mut buffer = RingAllocator::new(1024, 64);
    assert_eq!(0, buffer.allocate(500));
    assert_eq!(512, buffer.allocate(500));
    assert_eq!(0, buffer.allocate(128));
}

#[test]
fn bump_allocator() {
    let mut allocator = BumpAllocator::new(1024, 64);
    assert_eq!(Some(0), allocator.allocate(500));
    assert_eq!(Some(512), allocator.allocate(100));
    assert_eq!(Some(640), allocator.allocate(100));
    assert_eq!(None, allocator.allocate(500));
    allocator.reset();
    assert_eq!(Some(0), allocator.allocate(500));
    assert_eq!(Some(512), allocator.allocate(100));
    assert_eq!(Some(640), allocator.allocate(100));
    assert_eq!(None, allocator.allocate(500));
}

#[test]
fn bump_allocator_align() {
    let mut allocator = BumpAllocator::new(1024, 128);
    assert_eq!(Some(0), allocator.allocate(10));
    assert_eq!(Some(128), allocator.allocate(10));
}

#[test]
fn align_u64_and_usize() {
    assert_eq!(0, 0u64.align(256));
    assert_eq!(256, 1u64.align(256));
    assert_eq!(4096, 4096usize.align(4096));
    assert_eq!(8192, 4097usize.align(4096));
}

#[test]
fn dynamic_allocator_first_fit_and_split() {
    let mut allocator = DynamicAllocator::new(1024, 64);
    assert_eq!(Some(0), allocator.allocate(100));
    assert_eq!(Some(128), allocator.allocate(64));
    assert_eq!(Some(192), allocator.allocate(500));
    assert_eq!(None, allocator.allocate(500));
    assert_eq!(Some(704), allocator.allocate(320));
    assert_eq!(None, allocator.allocate(64));
}

#[test]
fn dynamic_allocator_deallocate_and_merge() {
    let mut allocator = DynamicAllocator::new(1024, 64);
    let a = allocator.allocate(256).unwrap();
    let b = allocator.allocate(256).unwrap();
    let c = allocator.allocate(256).unwrap();
    assert_eq!((0, 256, 512), (a, b, c));
    allocator.deallocate(a);
    allocator.deallocate(c);
    allocator.deallocate(b);
    // all three extents merged back: the whole region is one free
    // extent again, so a full-size allocation fits
    assert_eq!(Some(0), allocator.allocate(1024));
}

#[test]
fn dynamic_allocator_reuses_freed_extent() {
    let mut allocator = DynamicAllocator::new(1024, 64);
    let a = allocator.allocate(128).unwrap();
    let _b = allocator.allocate(128).unwrap();
    allocator.deallocate(a);
    // first fit lands back in the freed front extent
    assert_eq!(Some(0), allocator.allocate(64));
}

#[test]
fn dynamic_allocator_allocate_back() {
    let mut allocator = DynamicAllocator::new(1024, 64);
    assert_eq!(Some(1024 - 256), allocator.allocate_back(256));
    assert_eq!(Some(0), allocator.allocate(256));
    assert_eq!(Some(1024 - 512), allocator.allocate_back(256));
    assert_eq!(None, allocator.allocate_back(1024));
}

#[test]
fn dynamic_allocator_aligns_to_granularity() {
    let mut allocator = DynamicAllocator::new(1024, 256);
    assert_eq!(Some(0), allocator.allocate(1));
    // the one-byte allocation consumed a whole 256-byte granule
    assert_eq!(Some(256), allocator.allocate(1));
}

#[test]
fn block_allocator_hands_out_strided_chunks() {
    let mut allocator = BlockAllocator::new(512, 4);
    assert_eq!(Some(0), allocator.allocate());
    assert_eq!(Some(512), allocator.allocate());
    assert_eq!(Some(1024), allocator.allocate());
    assert_eq!(Some(1536), allocator.allocate());
    assert_eq!(None, allocator.allocate());
    allocator.dealloc(512);
    assert_eq!(Some(512), allocator.allocate());
    assert_eq!(None, allocator.allocate());
}
