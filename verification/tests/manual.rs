use lhl::heap::manual::{new_slice_layout, slice_layout, AllocRequest};
use lhl::heap::manual::Unique;
use lhl::heap::rawbuf::DynArray;
use lhl::heap::dlmalloc::{DlCall, DlMalloc};
use lhl::heap::tracing::AllocLayout;

#[test]
fn unique_single_value() {
    let slot = Unique::<u8>::new::<i32>();
    assert_eq!(slot.as_slice(), &[None]);
    let mut v = slot.init(7);
    assert_eq!(v.as_slice(), &[7]);
    v.write(9);
    assert_eq!(v.as_slice(), &[9]);
    v.free();
}

#[test]
fn unique_slices() {
    let s = Unique::<Option<u16>>::new_slice(3);
    assert_eq!(s.len(), 3);
    assert!(!s.is_empty());
    let e = Unique::<u64>::empty_slice();
    assert!(e.is_empty());
    e.free_slice();
}

#[test]
fn unique_grow_keeps_contents_and_zeroes_the_rest() {
    let mut b = Unique::<u64>::empty_slice();
    b.grow(2);
    assert_eq!(b.as_slice(), &[0, 0]);
    b.as_mut_slice()[1] = 5;
    b.grow(4);
    assert_eq!(b.as_slice(), &[0, 5, 0, 0]);
    b.grow(4);
    assert_eq!(b.len(), 4);
}

#[test]
fn dyn_array_starts_empty() {
    let a = DynArray::<u32>::new();
    assert_eq!(a.len(), 0);
}

#[test]
fn dlmalloc_entry_points() {
    let d = DlMalloc::new();
    assert_eq!(d.allocation_call(AllocLayout { size: 10, align: 8 }), DlCall::Malloc { size: 10 });
    assert_eq!(d.allocation_call(AllocLayout { size: 10, align: 16 }), DlCall::Memalign { size: 10, align: 16 });
    assert!(d.allocation_result(0, AllocLayout { size: 10, align: 8 }).is_err());
    assert_eq!(d.allocation_result(0x100, AllocLayout { size: 10, align: 8 }).unwrap(), (0x100, 10));
}

#[test]
fn slice_layouts() {
    let align = std::mem::align_of::<u64>();
    assert_eq!(slice_layout::<u64>(3), Some(AllocLayout { size: 24, align }));
    assert_eq!(slice_layout::<u64>(0), Some(AllocLayout { size: 0, align }));
    assert_eq!(slice_layout::<u64>(usize::MAX), None);
    assert_eq!(slice_layout::<u64>(isize::MAX as usize / 8 + 1), None);
    assert_eq!(slice_layout::<u16>(5), Some(AllocLayout { size: 10, align: std::mem::align_of::<u16>() }));
    assert_eq!(new_slice_layout::<u8>(7), AllocLayout { size: 7, align: 1 });
}

#[test]
fn grow_requests() {
    let align = std::mem::align_of::<u64>();
    let mut b = Unique::<u64>::empty_slice();
    assert_eq!(b.grow_request(0), AllocRequest::Nothing);
    assert_eq!(b.grow_request(16), AllocRequest::Allocate { layout: AllocLayout { size: 128, align } });
    b.grow(16);
    assert_eq!(
        b.grow_request(32),
        AllocRequest::Grow {
            old_layout: AllocLayout { size: 128, align },
            new_layout: AllocLayout { size: 256, align },
        }
    );
}
