# lhl

A heap-layout tracer: an allocator wrapper that records where every
allocation starts, finds the pointers stored inside allocations, and builds
the graph of allocations and the pointers between them.

- `src/` is the library, written in Verus and verified: integer helpers,
  decimal and binary rendering, the growable bit map of allocation starts,
  the tracing allocator's bookkeeping (headers, registration, resolving
  interior pointers, finding pointers among words read from memory), the
  bump allocator over a mapped region, the lazily initialised cell, and the
  allocation graph with the depth-first walk that builds it, its roots and
  its tree layout.
- `app/` is ordinary Rust around the library: memory mapping, the global
  allocator plumbing, the lock, raw memory reads, the C entry points and
  serialisation of the graph.
- `tests/` runs the library on concrete values.
