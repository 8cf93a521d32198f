//! The graph of allocations and the pointers between them.
pub mod logical;
pub mod layout;
pub mod walk;
