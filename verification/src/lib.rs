//! A user-space heap allocator: fixed-capacity memory regions are carved into
//! variably-sized allocations, tracked as a sorted, non-overlapping record
//! list, and reclaimed on request.
//!
//! Addresses are modelled as plain `usize` offsets; acquiring and releasing
//! the backing memory is left to the embedding application.

pub mod heap_allocator;
