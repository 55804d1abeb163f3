//! Concrete checks of the library's stated properties: the alignment rule,
//! space accounting, the sorted-and-disjoint record list, idempotent double
//! frees, and lazy provisioning.

use heap_allocator::heap_allocator::{Heap, HeapAllocator, DEFAULT_HEAP_SIZE};

/// The records are sorted ascending by start address and no two reserved
/// ranges overlap.
fn ensure_sorted_disjoint(heap: &Heap) {
    for w in heap.allocations.windows(2) {
        assert!(w[0].ptr + w[0].alloc_size <= w[1].ptr);
    }
}

#[test]
fn alignment_keeps_multiples_of_four() {
    assert_eq!(Heap::align(2048), 2048);
    assert_eq!(Heap::align(0), 0);
    assert_eq!(Heap::align(4), 4);
}

#[test]
fn alignment_preserves_historical_formula() {
    // The reserved size is the requested size plus its remainder modulo 4,
    // which is not a round-up to the next multiple of 4.
    assert_eq!(Heap::align(5), 6);
    assert_eq!(Heap::align(1), 2);
    assert_eq!(Heap::align(2), 4);
    assert_eq!(Heap::align(3), 6);
    assert_eq!(Heap::align(2049), 2050);
}

#[test]
fn records_carry_requested_and_reserved_sizes() {
    let mut heap = Heap::new(0, 64);
    assert_eq!(heap.allocate(5), Some(0));
    // The next placement starts after the 6 reserved bytes, not after 5.
    assert_eq!(heap.allocate(5), Some(6));
    let first = &heap.allocations[0];
    assert_eq!(first.real_size, 5);
    assert_eq!(first.alloc_size, 6);
    assert_eq!(first.start(), 0);
    assert_eq!(first.end(), 6);
    assert_eq!(first.distance_to(&heap.allocations[1]), 0);
}

#[test]
fn heap_at_nonzero_base() {
    let mut heap = Heap::new(100, 32);
    assert_eq!(heap.allocate(8), Some(100));
    assert_eq!(heap.allocate(8), Some(108));
    // 16 of 32 bytes used: a 24-byte request no longer fits.
    assert_eq!(heap.allocate(24), None);
    assert_eq!(heap.allocate(16), Some(116));
}

#[test]
fn space_accounting_adds_up_to_capacity() {
    let mut heap = Heap::new(0, 32768);
    assert_eq!(heap.used_space(), 0);
    assert_eq!(heap.free_space(), 32768);
    assert_eq!(heap.allocate(2048), Some(0));
    assert_eq!(heap.allocate(100), Some(2048));
    assert_eq!(heap.used_space(), 2048 + 100);
    assert_eq!(heap.free_space(), 32768 - 2048 - 100);
    assert_eq!(heap.used_space() + heap.free_space(), 32768);
    heap.free(0);
    assert_eq!(heap.used_space(), 100);
    assert_eq!(heap.used_space() + heap.free_space(), 32768);
}

#[test]
fn records_stay_sorted_and_disjoint() {
    let mut allocator = HeapAllocator { heaps: vec![] };
    let mut addrs = vec![];
    for _ in 0..10 {
        addrs.push(allocator.allocate(1000).unwrap());
    }
    allocator.free(addrs[3]);
    allocator.free(addrs[7]);
    ensure_sorted_disjoint(allocator.heaps.first().unwrap());
    // A small allocation reuses the earliest vacated gap.
    assert_eq!(allocator.allocate(500), Some(addrs[3]));
    ensure_sorted_disjoint(allocator.heaps.first().unwrap());
    assert_eq!(allocator.heaps.first().unwrap().allocations.len(), 9);
}

#[test]
fn double_free_is_idempotent() {
    let mut allocator = HeapAllocator { heaps: vec![] };
    let mut addrs = vec![];
    for _ in 0..16 {
        addrs.push(allocator.allocate(2048).unwrap());
    }
    allocator.free(addrs[8]);
    let after_first: Vec<usize> =
        allocator.heaps.first().unwrap().allocations.iter().map(|a| a.ptr).collect();
    allocator.free(addrs[8]);
    let after_second: Vec<usize> =
        allocator.heaps.first().unwrap().allocations.iter().map(|a| a.ptr).collect();
    assert_eq!(after_first, after_second);
    assert_eq!(after_first.len(), 15);
}

#[test]
fn free_of_unknown_address_is_a_no_op() {
    let mut allocator = HeapAllocator { heaps: vec![] };
    assert!(allocator.allocate(2048).is_some());
    allocator.free(9999);
    assert_eq!(allocator.heaps.first().unwrap().allocations.len(), 1);
}

#[test]
fn first_use_provisions_one_default_heap() {
    let mut allocator = HeapAllocator { heaps: vec![] };
    assert!(allocator.allocate(16).is_some());
    assert_eq!(allocator.heaps.len(), 1);
    assert_eq!(allocator.heaps[0].size, DEFAULT_HEAP_SIZE);
    assert_eq!(allocator.heaps[0].ptr, 0);
    // A second call does not create a second heap.
    assert!(allocator.allocate(16).is_some());
    assert_eq!(allocator.heaps.len(), 1);
}

#[test]
fn first_free_provisions_one_default_heap() {
    let mut allocator = HeapAllocator { heaps: vec![] };
    allocator.free(42);
    assert_eq!(allocator.heaps.len(), 1);
    assert_eq!(allocator.heaps[0].size, DEFAULT_HEAP_SIZE);
    assert!(allocator.heaps[0].allocations.is_empty());
}

#[test]
fn extra_heaps_are_kept_but_not_consulted() {
    let mut allocator = HeapAllocator { heaps: vec![] };
    allocator.init_heap(64);
    allocator.init_heap(1024);
    assert_eq!(allocator.heaps.len(), 2);
    // Only the first 64-byte heap serves requests; its exhaustion is final.
    assert_eq!(allocator.allocate(64), Some(0));
    assert_eq!(allocator.allocate(64), None);
    assert_eq!(allocator.heaps.len(), 2);
    assert!(allocator.heaps[1].allocations.is_empty());
}

#[test]
fn gap_at_base_is_not_reused() {
    // The scan considers only gaps between adjacent records: space vacated
    // before the first record is never placed into again.
    let mut heap = Heap::new(0, 12);
    assert_eq!(heap.allocate(4), Some(0));
    assert_eq!(heap.allocate(4), Some(4));
    heap.free(0);
    assert_eq!(heap.allocate(4), Some(8));
    assert_eq!(heap.allocate(4), None);
}

#[test]
fn zero_size_allocation_succeeds_at_base() {
    let mut heap = Heap::new(0, 16);
    assert_eq!(heap.allocate(0), Some(0));
    assert_eq!(heap.allocations.len(), 1);
    assert_eq!(heap.allocations[0].alloc_size, 0);
}

#[test]
fn exhaustion_boundary_is_exact() {
    // Capacity 12: three 4-byte chunks fit, the fourth fails.
    let mut heap = Heap::new(0, 12);
    assert_eq!(heap.allocate(4), Some(0));
    assert_eq!(heap.allocate(4), Some(4));
    assert_eq!(heap.allocate(4), Some(8));
    assert_eq!(heap.allocate(4), None);
    heap.free(4);
    assert_eq!(heap.allocate(4), Some(4));
}
