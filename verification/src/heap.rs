//! Allocation bookkeeping: owned buffers, the bit map of allocation starts,
//! allocation identifiers and the tracing allocator's logic.
pub mod manual;
pub mod bitvec;
pub mod tracing;
pub mod meta;
pub mod rawbuf;
pub mod dlmalloc;
