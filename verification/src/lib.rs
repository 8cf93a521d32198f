//! Verified core of a heap-layout tracer: bit maps of allocation starts, a
//! tracing allocator's bookkeeping, pointer discovery and the allocation graph.
pub mod graph;
pub mod heap;
pub mod lazy_lock;
pub mod os;
pub mod util;

use vstd::prelude::*;

verus! {

#[derive(Debug)]
pub struct Foo {
    pub a: i32,
}

} // verus!
