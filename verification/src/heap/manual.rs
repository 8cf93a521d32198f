//! An owning buffer with explicit release: `Unique<T>` owns a run of `T`s.
//!
//! A single owned value is a run of length one; an uninitialised slot holds
//! `None` until it is initialised.
use vstd::prelude::*;

verus! {

use vstd::layout::{size_of, align_of, valid_layout};
use crate::heap::tracing::AllocLayout;

/// The layout of a slice of `count` values of `T`: `count` times the size of
/// `T`, aligned as `T`, or `None` when that is no valid layout (its size
/// overflows, or exceeds what a layout may hold).
pub open spec fn slice_layout_spec<T>(count: int) -> Option<AllocLayout> {
    let size = size_of::<T>() * count;
    if 0 <= size <= usize::MAX && valid_layout(size as usize, align_of::<T>() as usize) {
        Some(AllocLayout { size: size as usize, align: align_of::<T>() as usize })
    } else {
        None
    }
}

/// The layout of a slice of `count` values of `T`, or `None` when no valid
/// layout holds them.
pub fn slice_layout<T>(count: usize) -> (r: Option<AllocLayout>)
    ensures
        r == slice_layout_spec::<T>(count as int),
{
    vstd::layout::layout_for_type_is_valid::<T>();
    let size = core::mem::size_of::<T>();
    let align = core::mem::align_of::<T>();
    match size.checked_mul(count) {
        None => {
            proof {
                assert(size_of::<T>() * count > usize::MAX);
            }
            None
        },
        Some(total) => {
            let max = isize::MAX as usize;
            proof {
                assert(align > 0);
                assert(max == isize::MAX);
            }
            if total <= max - max % align {
                Some(AllocLayout { size: total, align })
            } else {
                None
            }
        },
    }
}

/// Create a new layout for a slice `[T]` that can hold `count` elements; an
/// impossible layout may not be requested.
pub fn new_slice_layout<T>(count: usize) -> (r: AllocLayout)
    requires
        slice_layout_spec::<T>(count as int) is Some,
    ensures
        Some(r) == slice_layout_spec::<T>(count as int),
{
    slice_layout::<T>(count).unwrap()
}

/// A request to the allocator that backs a buffer.
#[derive(Clone, Copy, Debug, PartialEq, Eq, Structural)]
pub enum AllocRequest {
    /// No request at all.
    Nothing,
    /// Allocate a new block of `layout`.
    Allocate { layout: AllocLayout },
    /// Grow the block of `old_layout` to `new_layout`.
    Grow { old_layout: AllocLayout, new_layout: AllocLayout },
}

/// A slice layout that is valid for some count is valid for every smaller
/// count.
proof fn lemma_smaller_slice_layout<T>(small: int, large: int)
    requires
        0 <= small <= large,
        slice_layout_spec::<T>(large) is Some,
    ensures
        slice_layout_spec::<T>(small) is Some,
{
    vstd::arithmetic::mul::lemma_mul_inequality(small, large, size_of::<T>() as int);
    vstd::arithmetic::mul::lemma_mul_is_commutative(small, size_of::<T>() as int);
    vstd::arithmetic::mul::lemma_mul_is_commutative(large, size_of::<T>() as int);
    assert(0 <= size_of::<T>() * small) by (nonlinear_arith)
        requires
            0 <= small,
    ;
}

/// An initialized, owning buffer of `T`s that is released explicitly (with
/// [`Unique::free`] or [`Unique::free_slice`]).
pub struct Unique<T> {
    data: Vec<T>,
}

impl<T> View for Unique<T> {
    type V = Seq<T>;

    closed spec fn view(&self) -> Seq<T> {
        self.data@
    }
}

impl<T> Unique<T> {
    /// Allocate a new spot for a `U`. It starts uninitialised (`None`); use
    /// [`Unique::init`] to fill it.
    pub fn new<U>() -> (r: Unique<Option<U>>)
        ensures
            r@ == seq![None::<U>],
    {
        let mut data: Vec<Option<U>> = Vec::new();
        data.push(None);
        Unique { data }
    }

    /// Write to this single-value allocation
    pub fn write(&mut self, value: T)
        requires
            old(self)@.len() == 1,
        ensures
            final(self)@ == seq![value],
    {
        self.data.set(0, value);
        assert(self.data@ =~= seq![value]);
    }

    /// Release a single-value allocation.
    pub fn free(self)
        requires
            self@.len() == 1,
    {
    }

    /// Construct a zero-sized slice. This doesn't actually do any allocating.
    pub fn empty_slice() -> (r: Self)
        ensures
            r@ == Seq::<T>::empty(),
    {
        Unique { data: Vec::new() }
    }

    /// Release a slice allocation.
    pub fn free_slice(self) {
    }

    pub fn as_mut_slice(&mut self) -> (r: &mut [T])
        ensures
            r@ == old(self)@,
            final(r)@ == final(self)@,
    {
        self.data.as_mut_slice()
    }

    pub fn as_slice(&self) -> (r: &[T])
        ensures
            r@ == self@,
    {
        self.data.as_slice()
    }

    /// Same as getting the length of a fat pointer.
    pub fn len(&self) -> (r: usize)
        ensures
            r == self@.len(),
    {
        self.data.len()
    }

    /// Check if the slice is empty
    pub fn is_empty(&self) -> (r: bool)
        ensures
            r == (self@.len() == 0),
    {
        self.data.len() == 0
    }
}

impl<T> Unique<Option<T>> {
    /// Initialise a single uninitialised slot with `value`.
    pub fn init(self, value: T) -> (r: Unique<T>)
        requires
            self@ == seq![None::<T>],
        ensures
            r@ == seq![value],
    {
        let mut data: Vec<T> = Vec::new();
        data.push(value);
        Unique { data }
    }

    /// Allocate room for `count` values, all uninitialised. The slice layout
    /// of `count` values must be a possible one.
    pub fn new_slice(count: usize) -> (r: Unique<Option<T>>)
        requires
            slice_layout_spec::<T>(count as int) is Some,
        ensures
            r@ == Seq::new(count as nat, |i: int| None::<T>),
    {
        let mut data: Vec<Option<T>> = Vec::new();
        let mut i: usize = 0;
        while i < count
            invariant
                i <= count,
                data@ == Seq::new(i as nat, |j: int| None::<T>),
            decreases count - i,
        {
            data.push(None);
            i = i + 1;
            assert(data@ =~= Seq::new(i as nat, |j: int| None::<T>));
        }
        Unique { data }
    }
}

impl<T> Unique<T> {
    /// The request that growing this buffer to `new_capacity` elements makes
    /// of its allocator: none for a capacity of 0, a new block of the slice
    /// layout when the buffer is empty, and otherwise growing the block of
    /// the current slice layout to the new one.
    pub fn grow_request(&self, new_capacity: usize) -> (r: AllocRequest)
        requires
            new_capacity >= self@.len(),
            new_capacity > 0 ==> slice_layout_spec::<T>(new_capacity as int) is Some,
        ensures
            r == if new_capacity == 0 {
                AllocRequest::Nothing
            } else if self@.len() == 0 {
                AllocRequest::Allocate { layout: slice_layout_spec::<T>(new_capacity as int)->0 }
            } else {
                AllocRequest::Grow {
                    old_layout: slice_layout_spec::<T>(self@.len() as int)->0,
                    new_layout: slice_layout_spec::<T>(new_capacity as int)->0,
                }
            },
    {
        if new_capacity == 0 {
            return AllocRequest::Nothing;
        }
        let new_layout = new_slice_layout::<T>(new_capacity);
        if self.data.len() == 0 {
            AllocRequest::Allocate { layout: new_layout }
        } else {
            proof {
                lemma_smaller_slice_layout::<T>(self@.len() as int, new_capacity as int);
            }
            let old_layout = new_slice_layout::<T>(self.data.len());
            AllocRequest::Grow { old_layout, new_layout }
        }
    }
}

impl Unique<u64> {
    /// Grow this allocation to hold exactly `new_capacity` elements; the
    /// elements that were there keep their values and the new ones are zero.
    /// The slice layout of the new capacity must be a possible one (see
    /// [`Unique::grow_request`] for what is asked of the allocator).
    pub fn grow(&mut self, new_capacity: usize)
        requires
            new_capacity >= old(self)@.len(),
            new_capacity > 0 ==> slice_layout_spec::<u64>(new_capacity as int) is Some,
        ensures
            final(self)@.len() == new_capacity,
            final(self)@.subrange(0, old(self)@.len() as int) == old(self)@,
            forall|i: int| old(self)@.len() <= i < new_capacity ==> #[trigger] final(self)@[i] == 0,
    {
        let old_len = self.data.len();
        let ghost old_data = self.data@;
        while self.data.len() < new_capacity
            invariant
                old_len <= self.data@.len() <= new_capacity,
                old_len == old_data.len(),
                self.data@.subrange(0, old_len as int) == old_data,
                forall|i: int| old_len <= i < self.data@.len() ==> #[trigger] self.data@[i] == 0,
            decreases new_capacity - self.data@.len(),
        {
            self.data.push(0);
        }
    }
}

} // verus!
