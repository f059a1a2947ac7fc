use rust_core::allocator::fixed_size_block::block_size;
use rust_core::allocator::fixed_size_block::list_index;
use rust_core::allocator::fixed_size_block::FixedSizeBlockAllocator;
use rust_core::allocator::fixed_size_block::BLOCK_CLASS_COUNT;

#[test]
fn block_size_ladder() {
    let expected = [8, 16, 32, 64, 128, 256, 512, 1024, 2048];
    for (i, want) in expected.iter().enumerate() {
        assert_eq!(block_size(i), *want);
    }
    assert_eq!(BLOCK_CLASS_COUNT, 9);
}

#[test]
fn list_index_routes_to_smallest_fitting_class() {
    // size 10, align 4 routes to the 16-byte class
    assert_eq!(list_index(10, 4), Some(1));
    assert_eq!(list_index(8, 1), Some(0));
    assert_eq!(list_index(0, 1), Some(0));
    assert_eq!(list_index(9, 1), Some(1));
    assert_eq!(list_index(17, 1), Some(2));
    assert_eq!(list_index(2048, 1), Some(8));
    // the alignment drives the key when it exceeds the size
    assert_eq!(list_index(1, 512), Some(6));
    // beyond the largest class there is no class
    assert_eq!(list_index(2049, 1), None);
    assert_eq!(list_index(1, 4096), None);
}

#[test]
fn freed_class_block_is_reused_before_fallback() {
    // a request for size 10, align 4 routes to the 16-byte class; freeing
    // that block and repeating the request must reuse the freed node, not
    // touch the fallback again
    let mut heap = FixedSizeBlockAllocator::new();
    heap.init(0x1000, 4096);
    let p = heap.allocate(10, 4).unwrap();
    assert_eq!(p, 0x1000);
    let fallback_free_after_first = heap.fallback_ref().free_byte_count();
    assert_eq!(fallback_free_after_first, 4096 - 16);
    assert_eq!(heap.bucket_len(1), 0);

    heap.deallocate(p, 10, 4);
    assert_eq!(heap.bucket_len(1), 1);
    assert_eq!(heap.fallback_ref().free_byte_count(), fallback_free_after_first);

    let q = heap.allocate(10, 4).unwrap();
    assert_eq!(q, p);
    assert_eq!(heap.bucket_len(1), 0);
    // the fallback was not invoked again
    assert_eq!(heap.fallback_ref().free_byte_count(), fallback_free_after_first);
}

#[test]
fn oversize_requests_go_to_fallback() {
    let mut heap = FixedSizeBlockAllocator::new();
    heap.init(0x1000, 8192);
    let p = heap.allocate(4000, 8).unwrap();
    assert_eq!(p, 0x1000);
    assert_eq!(heap.fallback_ref().free_byte_count(), 8192 - 4000);
    heap.deallocate(p, 4000, 8);
    assert_eq!(heap.fallback_ref().free_byte_count(), 8192);
    assert_eq!(heap.fallback_ref().region_count(), 1);
}

#[test]
fn class_blocks_are_class_aligned() {
    let mut heap = FixedSizeBlockAllocator::new();
    heap.init(0x1008, 8192);
    // a 256-class block must come back 256-aligned even though the arena
    // start is only 8-aligned
    let p = heap.allocate(200, 1).unwrap();
    assert_eq!(p % 256, 0);
}

#[test]
fn block_freed_into_class_stays_in_class() {
    // cross-class reuse does not happen: a freed 16-byte-class block cannot
    // serve a 32-byte-class request, which is carved from the fallback
    let mut heap = FixedSizeBlockAllocator::new();
    heap.init(0x1000, 4096);
    let p = heap.allocate(16, 8).unwrap();
    heap.deallocate(p, 16, 8);
    assert_eq!(heap.bucket_len(1), 1);
    let q = heap.allocate(32, 8).unwrap();
    assert_ne!(p, q);
    assert_eq!(heap.bucket_len(1), 1);
    assert_eq!(heap.bucket_len(2), 0);
}

#[test]
fn out_of_memory_is_reported() {
    let mut heap = FixedSizeBlockAllocator::new();
    heap.init(0x1000, 64);
    // the 2048-class block cannot be carved from a 64-byte arena
    assert_eq!(heap.allocate(2048, 1), None);
    // neither can an oversize request
    assert_eq!(heap.allocate(4096, 1), None);
    assert_eq!(heap.fallback_ref().free_byte_count(), 64);
}

#[test]
fn fragmentation_blocks_large_request_after_class_frees() {
    // arena [0x1000, 0x1100): two 8-byte blocks freed in reverse order end
    // up parked in the 8-byte class, so the arena is not reassembled and a
    // 256-byte request correctly fails
    let mut heap = FixedSizeBlockAllocator::new();
    heap.init(0x1000, 0x100);
    let a = heap.allocate(8, 8).unwrap();
    let b = heap.allocate(8, 8).unwrap();
    assert_eq!(a, 0x1000);
    assert_eq!(b, 0x1010);
    heap.deallocate(b, 8, 8);
    heap.deallocate(a, 8, 8);
    assert_eq!(heap.bucket_len(0), 2);
    assert_eq!(heap.allocate(256, 1), None);
}

#[test]
fn conservation_for_exact_classes() {
    // for classes of at least the node size, the class block is exactly what
    // the fallback carves, so free bytes are conserved through the round trip
    let mut heap = FixedSizeBlockAllocator::new();
    heap.init(0x1000, 4096);
    let p = heap.allocate(32, 8).unwrap();
    assert_eq!(heap.fallback_ref().free_byte_count(), 4096 - 32);
    heap.deallocate(p, 32, 8);
    let free = heap.fallback_ref().free_byte_count() + heap.bucket_len(2) * block_size(2);
    assert_eq!(free, 4096);
}

#[test]
fn conservation_with_class_rounding() {
    // the fallback carves a padded block (at least the node size) for each
    // class-0 miss, while the class list holds the block at its 8-byte class
    // size: the two 8-byte paddings are the only bytes unaccounted for
    let mut heap = FixedSizeBlockAllocator::new();
    heap.init(0x1000, 0x100);
    let a = heap.allocate(8, 8).unwrap();
    let b = heap.allocate(8, 8).unwrap();
    assert_eq!(heap.fallback_ref().free_byte_count(), 0x100 - 16 - 16);
    heap.deallocate(b, 8, 8);
    heap.deallocate(a, 8, 8);
    let free = heap.fallback_ref().free_byte_count() + heap.bucket_len(0) * block_size(0);
    assert_eq!(free, 0x100 - 2 * 8);
}
