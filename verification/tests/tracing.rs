use lhl::heap::tracing::{
    AllocId, AllocLayout, FindPointerMethod, FlatAllocator, HexDump, PtrMeta, TracingAlloc,
    TracingAllocHeader, HEADER_SIZE,
};

struct Arena {
    start: usize,
}

impl FlatAllocator for Arena {
    fn min_vaddr(&self) -> usize {
        self.start
    }
}

fn tracer() -> TracingAlloc<Arena> {
    TracingAlloc::new(Arena { start: 0x10_000 })
}

#[test]
fn layout_with_header_pads_to_the_alignment() {
    let (h, l) = TracingAllocHeader::layout_with_header(AllocLayout { size: 24, align: 8 });
    assert_eq!(h, 16);
    assert_eq!(l, AllocLayout { size: 40, align: 8 });
    let (h, l) = TracingAllocHeader::layout_with_header(AllocLayout { size: 24, align: 64 });
    assert_eq!(h, 64);
    assert_eq!(l, AllocLayout { size: 88, align: 64 });
}

#[test]
fn register_places_header_below_data() {
    let mut t = tracer();
    assert_eq!(t.nr_allocations(), 0);
    let p = t.register_alloc(0x10_100, AllocLayout { size: 24, align: 8 });
    assert_eq!(p.data_addr, 0x10_110);
    assert_eq!(p.header_addr, 0x10_110 - HEADER_SIZE);
    assert_eq!(p.header.size(), 24);
    assert_eq!(p.header.metadata(), 0);
    assert_eq!(t.nr_allocations(), 1);
}

#[test]
fn interior_pointers_resolve_to_their_allocation() {
    let mut t = tracer();
    let a = t.register_alloc(0x10_100, AllocLayout { size: 24, align: 8 }).data_addr;
    let b = t.register_alloc(0x10_200, AllocLayout { size: 100, align: 8 }).data_addr;
    assert_eq!(t.find_steps(a), Some(0));
    assert_eq!(t.find_steps(a + 23), Some(23));
    assert_eq!(t.find_steps(b + 50), Some(50));
    assert_eq!(t.find_steps(0x10_000), None);
    assert_eq!(t.find_steps(0x100), None);
    let steps = t.find_steps(a + 10);
    assert_eq!(TracingAlloc::<Arena>::header_addr(a + 10, 10), a - HEADER_SIZE);
    assert_eq!(
        TracingAlloc::<Arena>::alloc_id_from_ptr_steps(a + 10, steps, 24),
        Some(AllocId { ptr: a, size: 24 })
    );
    // Past the requested size: not inside the allocation.
    assert_eq!(TracingAlloc::<Arena>::alloc_id_from_ptr_steps(a + 30, t.find_steps(a + 30), 24), None);
    assert_eq!(TracingAlloc::<Arena>::alloc_id_from_ptr_steps(a, None, 24), None);
}

#[test]
fn deregister_forgets_the_allocation() {
    let mut t = tracer();
    let a = t.register_alloc(0x10_100, AllocLayout { size: 24, align: 8 }).data_addr;
    let b = t.register_alloc(0x10_200, AllocLayout { size: 16, align: 8 }).data_addr;
    let (base, layout) = t.deregister_alloc(b, AllocLayout { size: 16, align: 8 });
    assert_eq!(base, 0x10_200);
    assert_eq!(layout, AllocLayout { size: 32, align: 8 });
    assert_eq!(t.nr_allocations(), 1);
    assert_eq!(t.find_steps(b + 4), Some(b + 4 - a));
    t.deregister_alloc(a, AllocLayout { size: 24, align: 8 });
    assert_eq!(t.find_steps(b + 4), None);
    assert_eq!(t.nr_allocations(), 0);
}

#[test]
fn bit_map_index_is_offset_from_arena_start() {
    let t = tracer();
    assert_eq!(t.get_bit_map_index(0x10_000), Some(0));
    assert_eq!(t.get_bit_map_index(0x10_040), Some(0x40));
    assert_eq!(t.get_bit_map_index(0xffff), None);
    assert_eq!(t.min_vaddr(), 0x10_000);
}

#[test]
fn scan_window_skips_to_the_first_aligned_word() {
    assert_eq!(AllocId { ptr: 0x1000, size: 32 }.scan_window(), Some((0x1000, 4)));
    assert_eq!(AllocId { ptr: 0x1003, size: 32 }.scan_window(), Some((0x1008, 3)));
    assert_eq!(AllocId { ptr: 1, size: 16 }.scan_window(), Some((8, 1)));
    assert_eq!(AllocId { ptr: 0x1003, size: 37 }.scan_window(), Some((0x1008, 4)));
    assert_eq!(AllocId { ptr: 0x1003, size: 5 }.scan_window(), None);
    assert_eq!(AllocId { ptr: 0x1000, size: 0 }.scan_window(), None);
}

#[test]
fn find_pointers_in_words() {
    let mut t = tracer();
    let a = t.register_alloc(0x10_100, AllocLayout { size: 24, align: 8 }).data_addr;
    let b = t.register_alloc(0x10_200, AllocLayout { size: 100, align: 8 }).data_addr;
    let holder = AllocId { ptr: 0x20_000, size: 32 };
    let (start, count) = holder.scan_window().unwrap();
    assert_eq!(count, 4);
    let words = vec![a + 8, 7, b, a + 24];
    let headers = t.header_addrs(&words);
    assert_eq!(headers, vec![Some(a - HEADER_SIZE), None, Some(b - HEADER_SIZE), Some(a - HEADER_SIZE)]);
    let sizes = vec![Some(24), None, Some(100), Some(24)];
    let found = holder
        .find_pointers_unchecked(&t, FindPointerMethod::AlignedHeapOnly, &words, &sizes)
        .to_vec();
    assert_eq!(
        found,
        vec![
            PtrMeta { id: AllocId { ptr: a, size: 24 }, address: start },
            PtrMeta { id: AllocId { ptr: b, size: 100 }, address: start + 16 },
        ]
    );
}

#[test]
fn find_pointers_without_window_is_empty() {
    let t = tracer();
    let tiny = AllocId { ptr: 0x20_001, size: 3 };
    let r = tiny.find_pointers_unchecked(&t, FindPointerMethod::AlignedHeapOnly, &vec![], &vec![]);
    assert!(r.0.is_none());
    assert_eq!(r.to_vec(), vec![]);
}

#[test]
fn from_sized_takes_the_type_size() {
    let id = AllocId::from_sized::<[u64; 3]>(0x40);
    assert_eq!(id, AllocId { ptr: 0x40, size: 24 });
}

#[test]
fn hex_dump_debug_text() {
    assert_eq!(HexDump::new(vec![0, 255, 26, 7]).debug_text(), b"[0 ff 1a 7]".to_vec());
    assert_eq!(HexDump::new(vec![]).debug_text(), b"[]".to_vec());
    assert_eq!(HexDump::new(vec![16]).debug_text(), b"[10]".to_vec());
    assert_eq!(HexDump::new(vec![1, 2]).as_slice(), &[1, 2]);
}

#[test]
fn empty_header() {
    let h = TracingAllocHeader::empty();
    assert_eq!(h.size(), 0);
    assert_eq!(h.metadata(), 0);
}

#[test]
fn data_keeps_the_requested_alignment() {
    let mut t = tracer();
    let p = t.register_alloc(0x10_040, AllocLayout { size: 8, align: 64 });
    assert_eq!(p.data_addr, 0x10_080);
    assert_eq!(p.data_addr % 64, 0);
    let q = t.register_alloc(0x10_200, AllocLayout { size: 8, align: 4 });
    assert_eq!(q.data_addr % 4, 0);
    assert_eq!(q.data_addr, 0x10_210);
}
