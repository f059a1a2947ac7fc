use rust_core::allocator::align_up;
use rust_core::allocator::align_up_checked;
use rust_core::allocator::linked_list::LinkedListAllocator;
use rust_core::allocator::linked_list::ListNode;

#[test]
fn align_up_rounds_to_next_multiple() {
    assert_eq!(align_up(0x1000, 8), 0x1000);
    assert_eq!(align_up(0x1001, 8), 0x1008);
    assert_eq!(align_up(0x1007, 8), 0x1008);
    assert_eq!(align_up(0, 16), 0);
    assert_eq!(align_up(1, 1), 1);
    assert_eq!(align_up(100, 64), 128);
}

#[test]
fn align_up_checked_detects_overflow() {
    // usize::MAX is odd, so the next multiple of 2 does not exist
    assert_eq!(align_up_checked(usize::MAX, 2), None);
    assert_eq!(align_up_checked(usize::MAX - 1, 2), Some(usize::MAX - 1));
    assert_eq!(align_up_checked(usize::MAX, 1), Some(usize::MAX));
}

#[test]
fn list_node_accessors() {
    let node = ListNode::new(0x1000, 0x40);
    assert_eq!(node.start_addr(), 0x1000);
    assert_eq!(node.end_addr(), 0x1040);
}

#[test]
fn size_align_pads_requests() {
    // alignment is raised to the node alignment, size to a multiple of the
    // alignment and at least the node size
    assert_eq!(LinkedListAllocator::size_align(1, 1), (16, 8));
    assert_eq!(LinkedListAllocator::size_align(10, 4), (16, 8));
    assert_eq!(LinkedListAllocator::size_align(100, 8), (104, 8));
    assert_eq!(LinkedListAllocator::size_align(64, 8), (64, 8));
    assert_eq!(LinkedListAllocator::size_align(1, 32), (32, 32));
    assert_eq!(LinkedListAllocator::size_align(0, 1), (16, 8));
}

#[test]
fn init_registers_whole_arena() {
    let mut heap = LinkedListAllocator::new();
    assert_eq!(heap.region_count(), 0);
    heap.init(0x1000, 4096);
    assert_eq!(heap.region_count(), 1);
    let region = heap.region_at(0);
    assert_eq!(region.start_addr(), 0x1000);
    assert_eq!(region.end_addr(), 0x1000 + 4096);
    assert_eq!(heap.free_byte_count(), 4096);
}

#[test]
fn alloc_from_region_rejects_sliver() {
    // a region one byte short of request + node size nominally fits the
    // payload, but the leftover could not host a node header
    let snug = ListNode::new(0x1000, 64);
    assert_eq!(LinkedListAllocator::alloc_from_region(&snug, 64, 8), Ok(0x1000));
    let sliver = ListNode::new(0x1000, 64 + 16 - 1);
    assert_eq!(LinkedListAllocator::alloc_from_region(&sliver, 64, 8), Err(()));
    let roomy = ListNode::new(0x1000, 64 + 16);
    assert_eq!(LinkedListAllocator::alloc_from_region(&roomy, 64, 8), Ok(0x1000));
}

#[test]
fn scan_skips_sliver_region() {
    let mut heap = LinkedListAllocator::new();
    heap.init(0x1000, 79);
    // 79 bytes is one byte short of 64 + 16: the only region is skipped
    assert_eq!(heap.allocate(64, 8), None);
    assert_eq!(heap.region_count(), 1);
    // a second, farther region of 80 bytes satisfies the request instead
    heap.add_free_region(0x2000, 80);
    assert_eq!(heap.allocate(64, 8), Some(0x2000));
    // the leftover 16 bytes stay on the list
    assert_eq!(heap.free_byte_count(), 79 + 16);
}

#[test]
fn add_free_region_keeps_address_order() {
    let mut heap = LinkedListAllocator::new();
    heap.add_free_region(0x3000, 32);
    heap.add_free_region(0x1000, 32);
    heap.add_free_region(0x2000, 32);
    assert_eq!(heap.region_count(), 3);
    assert_eq!(heap.region_at(0).start_addr(), 0x1000);
    assert_eq!(heap.region_at(1).start_addr(), 0x2000);
    assert_eq!(heap.region_at(2).start_addr(), 0x3000);
}

#[test]
fn merge_region_cascades_over_adjacent_runs() {
    let mut heap = LinkedListAllocator::new();
    heap.add_free_region(0x1020, 0x10);
    heap.add_free_region(0x1000, 0x10);
    heap.add_free_region(0x1010, 0x10);
    heap.add_free_region(0x2000, 0x20);
    assert_eq!(heap.region_count(), 4);
    heap.merge_region();
    // the three adjacent regions collapse into one in a single pass
    assert_eq!(heap.region_count(), 2);
    assert_eq!(heap.region_at(0).start_addr(), 0x1000);
    assert_eq!(heap.region_at(0).end_addr(), 0x1030);
    assert_eq!(heap.region_at(1).start_addr(), 0x2000);
    assert_eq!(heap.free_byte_count(), 0x30 + 0x20);
}

#[test]
fn allocate_carves_first_fit_and_keeps_excess() {
    let mut heap = LinkedListAllocator::new();
    heap.init(0x1000, 4096);
    let p = heap.allocate(64, 8).unwrap();
    assert_eq!(p, 0x1000);
    assert_eq!(heap.region_count(), 1);
    assert_eq!(heap.region_at(0).start_addr(), 0x1040);
    assert_eq!(heap.free_byte_count(), 4096 - 64);
}

#[test]
fn deallocate_coalesces_with_neighbours() {
    let mut heap = LinkedListAllocator::new();
    heap.init(0x1000, 4096);
    let a = heap.allocate(64, 8).unwrap();
    let b = heap.allocate(64, 8).unwrap();
    assert_eq!(b, 0x1040);
    heap.deallocate(a, 64, 8);
    assert_eq!(heap.region_count(), 2);
    heap.deallocate(b, 64, 8);
    // freeing b bridges the gap: everything coalesces back into one region
    assert_eq!(heap.region_count(), 1);
    assert_eq!(heap.free_byte_count(), 4096);
}

#[test]
fn round_trip_restores_single_region() {
    // allocate(64, 8) then deallocate, 1000 times over, on an empty
    // 4096-byte arena: the free list always ends as one region covering the
    // whole arena
    let mut heap = LinkedListAllocator::new();
    heap.init(0x10000, 4096);
    for _ in 0..1000 {
        let p = heap.allocate(64, 8).unwrap();
        assert_eq!(p, 0x10000);
        heap.deallocate(p, 64, 8);
        assert_eq!(heap.region_count(), 1);
    }
    let region = heap.region_at(0);
    assert_eq!(region.start_addr(), 0x10000);
    assert_eq!(region.end_addr(), 0x10000 + 4096);
    assert_eq!(heap.free_byte_count(), 4096);
}

#[test]
fn conservation_across_alloc_and_free() {
    // with alignments at or below the node alignment, every allocation
    // removes exactly its padded size from the free total, and every
    // deallocation returns it
    let mut heap = LinkedListAllocator::new();
    heap.init(0x1000, 4096);
    let a = heap.allocate(100, 8).unwrap(); // padded to 104
    assert_eq!(heap.free_byte_count(), 4096 - 104);
    let b = heap.allocate(10, 4).unwrap(); // padded to 16
    assert_eq!(heap.free_byte_count(), 4096 - 104 - 16);
    heap.deallocate(a, 100, 8);
    assert_eq!(heap.free_byte_count(), 4096 - 16);
    heap.deallocate(b, 10, 4);
    assert_eq!(heap.free_byte_count(), 4096);
}

#[test]
fn no_coalesce_mode_leaves_fragments() {
    let mut heap = LinkedListAllocator::new();
    heap.init(0x1000, 4096);
    let a = heap.allocate(64, 8).unwrap();
    let b = heap.allocate(64, 8).unwrap();
    heap.deallocate_no_coalesce(a, 64, 8);
    heap.deallocate_no_coalesce(b, 64, 8);
    // all bytes are back, but in three separate touching regions
    assert_eq!(heap.free_byte_count(), 4096);
    assert_eq!(heap.region_count(), 3);
    assert_eq!(heap.region_at(0).start_addr(), a);
    assert_eq!(heap.region_at(1).start_addr(), b);
    // an explicit pass repairs the fragmentation
    heap.merge_region();
    assert_eq!(heap.region_count(), 1);
}

#[test]
fn allocate_overflow_returns_oom() {
    // an arena at the very top of the address space: a request whose end
    // address would overflow is rejected, never wrapped
    let start = usize::MAX - 4095;
    let mut heap = LinkedListAllocator::new();
    heap.init(start, 4095);
    assert_eq!(heap.allocate(usize::MAX - 100, 8), None);
    assert_eq!(heap.region_count(), 1);
    assert_eq!(heap.allocate(64, 8), Some(start));
}

#[test]
fn allocate_out_of_memory_when_no_region_fits() {
    let mut heap = LinkedListAllocator::new();
    heap.init(0x1000, 128);
    assert_eq!(heap.allocate(256, 8), None);
    assert_eq!(heap.free_byte_count(), 128);
}

#[test]
fn reassembles_contiguous_space_after_reverse_free() {
    // arena [0x1000, 0x1100): two 8-byte blocks freed in reverse order must
    // coalesce back so that a 256-byte allocation succeeds
    let mut heap = LinkedListAllocator::new();
    heap.init(0x1000, 0x100);
    let a = heap.allocate(8, 8).unwrap();
    let b = heap.allocate(8, 8).unwrap();
    assert_eq!(a, 0x1000);
    assert_eq!(b, 0x1010);
    heap.deallocate(b, 8, 8);
    heap.deallocate(a, 8, 8);
    assert_eq!(heap.region_count(), 1);
    assert_eq!(heap.allocate(256, 1), Some(0x1000));
    assert_eq!(heap.free_byte_count(), 0);
}
