use lhl::heap::meta::{AMINode, AllocId, AllocMetaIndex, Color};
use std::cmp::Ordering;

#[test]
fn interior_pointer_comparison() {
    let id = AllocId::from_alloc(100, 10, 8);
    assert_eq!(id.test_interior_ptr(99), Ordering::Less);
    assert_eq!(id.test_interior_ptr(100), Ordering::Equal);
    assert_eq!(id.test_interior_ptr(109), Ordering::Equal);
    assert_eq!(id.test_interior_ptr(110), Ordering::Greater);
    let empty = AllocId::from_alloc(100, 0, 1);
    assert_eq!(empty.test_interior_ptr(100), Ordering::Greater);
}

#[test]
fn link_decoding() {
    let top = 1usize << (usize::BITS - 1);
    let second = 1usize << (usize::BITS - 2);
    assert_eq!(AMINode::as_index(5), None);
    assert_eq!(AMINode::as_index(top | 5), Some(5));
    assert_eq!(AMINode::as_index(top | second | 5), Some(5));
    let node = AMINode { id: AllocId::from_alloc(0, 8, 8), greater: top | 3, lesser: top | 4 };
    assert_eq!(node.greater(), Some(3));
    assert_eq!(node.lesser(), Some(4));
    let node = AMINode { id: AllocId::from_alloc(0, 8, 8), greater: top | 3, lesser: 4 };
    assert_eq!(node.lesser(), None);
}

#[test]
fn node_color() {
    let node = AMINode { id: AllocId::from_alloc(0, 8, 8), greater: 0, lesser: 0 };
    assert!(matches!(node.color(), Color::Red));
    let bit = 1usize << (usize::BITS - 2);
    let node = AMINode { id: AllocId::from_alloc(0, 8, 8), greater: bit, lesser: 0 };
    assert!(matches!(node.color(), Color::Black));
    let top = 1usize << (usize::BITS - 1);
    let node = AMINode { id: AllocId::from_alloc(0, 8, 8), greater: top | bit | 7, lesser: 0 };
    assert!(matches!(node.color(), Color::Black));
    assert_eq!(node.greater(), Some(7));
}

#[test]
fn new_index() {
    let _index = AllocMetaIndex::new();
}
