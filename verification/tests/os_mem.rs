use lhl::heap::tracing::AllocLayout;
use lhl::os::mem::{MmapRegion, StackAlloc};

#[test]
fn stack_allocator_can_be_used_on_box() {
    let size = MmapRegion::mapping_size(100).expect("the system has a page size");
    assert!(size >= 100);
    let mut arena = vec![0u8; size];
    let base = arena.as_ptr() as usize;
    let mut alloc = StackAlloc::new(MmapRegion::from_raw(base, size));
    let (addr, len) = alloc
        .allocate(AllocLayout { size: std::mem::size_of::<i32>(), align: std::mem::align_of::<i32>() })
        .expect("room for one i32");
    assert_eq!(len, 4);
    let offset = addr - base;
    arena[offset..offset + 4].copy_from_slice(&42i32.to_ne_bytes());
    let n = i32::from_ne_bytes(arena[offset..offset + 4].try_into().unwrap());
    assert_eq!(n, 42);
}

#[test]
fn round_to_pages_examples() {
    assert_eq!(MmapRegion::round_to_pages(1, 4096), 4096);
    assert_eq!(MmapRegion::round_to_pages(4096, 4096), 4096);
    assert_eq!(MmapRegion::round_to_pages(4097, 4096), 8192);
}

#[test]
fn bump_allocations_are_aligned_and_disjoint() {
    let mut alloc = StackAlloc::new(MmapRegion::from_raw(0x1000, 64));
    let a = alloc.allocate(AllocLayout { size: 3, align: 1 }).unwrap();
    assert_eq!(a, (0x1000, 3));
    let b = alloc.allocate(AllocLayout { size: 8, align: 8 }).unwrap();
    assert_eq!(b, (0x1008, 8));
    let c = alloc.allocate(AllocLayout { size: 1, align: 4 }).unwrap();
    assert_eq!(c, (0x1010, 1));
}

#[test]
fn bump_allocation_fills_the_arena_exactly() {
    let mut alloc = StackAlloc::new(MmapRegion::from_raw(0x1000, 16));
    assert_eq!(alloc.allocate(AllocLayout { size: 16, align: 1 }).unwrap(), (0x1000, 16));
    assert_eq!(alloc.stack_pointer(), alloc.capacity());
}

#[test]
fn mapping_size_with_page_examples() {
    assert_eq!(MmapRegion::mapping_size_with_page(100, 4096), Some(4096));
    assert_eq!(MmapRegion::mapping_size_with_page(8193, 4096), Some(12288));
    assert_eq!(MmapRegion::mapping_size_with_page(100, 0), None);
    assert_eq!(MmapRegion::mapping_size_with_page(usize::MAX - 10, 4096), None);
    assert_eq!(MmapRegion::mapping_size_with_page(usize::MAX - 4095, 4096), Some(usize::MAX - 4095));
}

#[test]
fn system_mapping_size_is_whole_pages() {
    let s = MmapRegion::mapping_size(1).unwrap();
    assert!(s >= 1);
    assert_eq!(MmapRegion::mapping_size(s), Some(s));
    assert_eq!(MmapRegion::mapping_size(s + 1), Some(2 * s));
}

#[test]
fn stack_pointer_moves_by_rounded_sizes() {
    let mut alloc = StackAlloc::new(MmapRegion::from_raw(0x1000, 64));
    assert_eq!(alloc.capacity(), 64);
    assert_eq!(alloc.stack_pointer(), 0);
    alloc.allocate(AllocLayout { size: 3, align: 1 }).unwrap();
    assert_eq!(alloc.stack_pointer(), 3);
    alloc.allocate(AllocLayout { size: 40, align: 16 }).unwrap();
    assert_eq!(alloc.stack_pointer(), 56);
}
