//! Memory regions obtained from the operating system.
pub mod mem;
