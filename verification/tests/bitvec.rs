use lhl::heap::bitvec::{index_offset, BitHandle, BitMap};

#[test]
fn index_offset_works() {
    assert_eq!(index_offset(42), (0, 42));
    assert_eq!(index_offset(120), (1, 56));
}

#[test]
fn index_offset_example_from_docs() {
    assert_eq!(index_offset(74), (1, 10));
    assert_eq!(index_offset(64), (1, 0));
    assert_eq!(index_offset(63), (0, 63));
}

#[test]
fn new_map_has_no_high_bit() {
    let bm = BitMap::new();
    assert!(!bm.chunk_in_bounds(0));
    assert_eq!(bm.get(0).scan_backward(&bm), None);
    assert_eq!(bm.get(100_000).scan_backward(&bm), None);
}

#[test]
fn set_high_grows_to_min_capacity() {
    let mut bm = BitMap::new();
    bm.set_high(5);
    assert!(bm.chunk_in_bounds(BitMap::MIN_CAPACITY - 1));
    assert!(!bm.chunk_in_bounds(BitMap::MIN_CAPACITY));
}

#[test]
fn grow_to_next_power_of_two() {
    let mut bm = BitMap::new();
    bm.grow(20);
    // 21 chunks round up to 32.
    assert!(bm.chunk_in_bounds(31));
    assert!(!bm.chunk_in_bounds(32));
    // Already in bounds: nothing changes.
    bm.grow(3);
    assert!(!bm.chunk_in_bounds(32));
    bm.grow(32);
    assert!(bm.chunk_in_bounds(63));
    assert!(!bm.chunk_in_bounds(64));
}

#[test]
fn scan_backward_within_a_chunk() {
    let mut bm = BitMap::new();
    bm.set_high(5);
    assert_eq!(bm.get(5).scan_backward(&bm), Some(0));
    assert_eq!(bm.get(7).scan_backward(&bm), Some(2));
    assert_eq!(bm.get(63).scan_backward(&bm), Some(58));
    assert_eq!(bm.get(4).scan_backward(&bm), None);
}

#[test]
fn scan_backward_across_chunks() {
    let mut bm = BitMap::new();
    bm.set_high(3);
    bm.set_high(130);
    // From chunk 1 back to bit 3 in chunk 0.
    assert_eq!(bm.get(100).scan_backward(&bm), Some(97));
    assert_eq!(bm.get(129).scan_backward(&bm), Some(126));
    assert_eq!(bm.get(130).scan_backward(&bm), Some(0));
    assert_eq!(bm.get(200).scan_backward(&bm), Some(70));
    // The highest high bit below wins.
    bm.set_high(64);
    assert_eq!(bm.get(100).scan_backward(&bm), Some(36));
    assert_eq!(bm.get(64).scan_backward(&bm), Some(0));
    assert_eq!(bm.get(63).scan_backward(&bm), Some(60));
}

#[test]
fn scan_backward_beyond_the_buffer() {
    let mut bm = BitMap::new();
    bm.set_high(10);
    // The buffer holds 16 chunks (1024 bits); bits past it are low.
    assert_eq!(bm.get(5000).scan_backward(&bm), Some(4990));
}

#[test]
fn set_low_clears_only_its_bit() {
    let mut bm = BitMap::new();
    bm.set_high(10);
    bm.set_high(20);
    bm.set_low(20);
    assert_eq!(bm.get(25).scan_backward(&bm), Some(15));
    bm.set_low(10);
    assert_eq!(bm.get(25).scan_backward(&bm), None);
}

#[test]
fn set_low_undoes_set_high() {
    let mut bm = BitMap::new();
    bm.set_high(700);
    let before = bm.get(1000).scan_backward(&bm);
    bm.set_high(900);
    assert_eq!(bm.get(1000).scan_backward(&bm), Some(100));
    bm.set_low(900);
    assert_eq!(bm.get(1000).scan_backward(&bm), before);
}

#[test]
fn handles_set_and_scan() {
    let mut bm = BitMap::new();
    BitHandle::new(300).set_high(&mut bm);
    assert_eq!(BitHandle::new(310).scan_backward(&bm), Some(10));
    BitHandle::new(300).set_low(&mut bm);
    assert_eq!(BitHandle::new(310).scan_backward(&bm), None);
}

#[test]
fn debug_text_lists_chunks_in_binary() {
    let mut bm = BitMap::new();
    assert_eq!(bm.debug_text(), Vec::<u8>::new());
    bm.set_high(0);
    bm.set_high(2);
    bm.set_high(65);
    let text = String::from_utf8(bm.debug_text()).unwrap();
    let mut expected = String::from("101 10 ");
    for _ in 2..BitMap::MIN_CAPACITY {
        expected.push_str("0 ");
    }
    assert_eq!(text, expected);
}
