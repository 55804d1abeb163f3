//! Allocation and free behaviour of `HeapAllocator`, driven through the
//! public surface: exhaustion, contiguity, gap reuse, and lazy provisioning.

use heap_allocator::heap_allocator::{Heap, HeapAllocator};

/// Every record starts exactly where the previous one ends, beginning at the
/// heap's base address.
fn ensure_heap_contiguity(heap: &Heap) {
    let mut addr = heap.ptr;
    for alloc in heap.allocations.iter() {
        assert!(addr == alloc.ptr);
        addr += alloc.alloc_size;
    }
}

#[test]
fn allocate_all() {
    let mut heap = HeapAllocator { heaps: vec![] };
    for _ in 0..16 {
        assert!(heap.allocate(2048).is_some());
    }
}

#[test]
fn allocate_too_many() {
    let mut heap = HeapAllocator { heaps: vec![] };
    for _ in 0..16 {
        assert!(heap.allocate(2048).is_some());
    }
    assert!(heap.allocate(2048).is_none());
}

#[test]
fn ensure_allocations_are_contiguous() {
    let mut heap = HeapAllocator { heaps: vec![] };
    for _ in 0..16 {
        assert!(heap.allocate(2048).is_some());
    }
    ensure_heap_contiguity(heap.heaps.first().unwrap());
}

#[test]
fn allocate_then_free() {
    let mut heap = HeapAllocator { heaps: vec![] };
    let mut tracked_alloc = None;
    for i in 0..16 {
        let alloc = heap.allocate(2048);
        assert!(alloc.is_some());
        if i == 8 {
            tracked_alloc = alloc;
        }
    }

    assert!(tracked_alloc.is_some());
    heap.free(tracked_alloc.unwrap());
    assert!(heap.heaps.first().unwrap().allocations.len() == 15);
}

#[test]
fn allocate_then_free_then_allocate() {
    let mut heap = HeapAllocator { heaps: vec![] };
    let mut tracked_alloc = None;
    for i in 0..16 {
        let alloc = heap.allocate(2048);
        assert!(alloc.is_some());
        if i == 8 {
            tracked_alloc = alloc;
        }
    }
    assert!(tracked_alloc.is_some());
    heap.free(tracked_alloc.unwrap());
    let alloc = heap.allocate(2048);
    assert!(alloc == tracked_alloc);
    ensure_heap_contiguity(heap.heaps.first().unwrap());
}

#[test]
fn dummy_allocate() {
    let mut allocator = HeapAllocator { heaps: vec![] };
    for _ in 0..16 {
        assert!(allocator.allocate(2048).is_some());
    }
    println!("allocator {:?}", &allocator);
    println!("final malloc {:?}", allocator.allocate(2048));
    assert!(allocator.allocate(2048).is_none());
}
