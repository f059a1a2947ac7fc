use rust_core::allocator::bump_allocator::BumpAllocator;

#[test]
fn bump_init_sets_bounds() {
    let mut bump = BumpAllocator::new();
    bump.init(0x1000, 1024);
    assert_eq!(bump.heap_start_addr(), 0x1000);
    assert_eq!(bump.heap_end_addr(), 0x1000 + 1024);
    assert_eq!(bump.next_addr(), 0x1000);
    assert_eq!(bump.allocation_count(), 0);
}

#[test]
fn bump_allocates_sequentially() {
    let mut bump = BumpAllocator::new();
    bump.init(0x1000, 1024);
    assert_eq!(bump.allocate(100, 1), Some(0x1000));
    assert_eq!(bump.allocate(50, 1), Some(0x1000 + 100));
    assert_eq!(bump.next_addr(), 0x1000 + 150);
    assert_eq!(bump.allocation_count(), 2);
}

#[test]
fn bump_aligns_cursor_upwards() {
    let mut bump = BumpAllocator::new();
    bump.init(0x1000, 1024);
    assert_eq!(bump.allocate(1, 1), Some(0x1000));
    // cursor is at 0x1001; an 8-aligned request starts at 0x1008
    assert_eq!(bump.allocate(8, 8), Some(0x1008));
    assert_eq!(bump.next_addr(), 0x1010);
}

#[test]
fn bump_lifo_retraction_and_full_reset() {
    // heap size 1024; allocate A(100), then B(50); freeing B retracts the
    // cursor by 50; freeing A afterwards resets the cursor to the start.
    let mut bump = BumpAllocator::new();
    bump.init(0x1000, 1024);
    let a = bump.allocate(100, 1).unwrap();
    let b = bump.allocate(50, 1).unwrap();
    assert_eq!(bump.next_addr(), 0x1000 + 150);
    bump.deallocate(b, 50);
    assert_eq!(bump.next_addr(), 0x1000 + 100);
    assert_eq!(bump.allocation_count(), 1);
    bump.deallocate(a, 100);
    assert_eq!(bump.next_addr(), 0x1000);
    assert_eq!(bump.allocation_count(), 0);
}

#[test]
fn bump_non_lifo_free_keeps_cursor() {
    let mut bump = BumpAllocator::new();
    bump.init(0x1000, 1024);
    let a = bump.allocate(100, 1).unwrap();
    let _b = bump.allocate(50, 1).unwrap();
    // a is not the most recent allocation: the cursor stays put
    bump.deallocate(a, 100);
    assert_eq!(bump.next_addr(), 0x1000 + 150);
    assert_eq!(bump.allocation_count(), 1);
}

#[test]
fn bump_out_of_memory() {
    let mut bump = BumpAllocator::new();
    bump.init(0x1000, 256);
    assert_eq!(bump.allocate(512, 1), None);
    assert_eq!(bump.next_addr(), 0x1000);
    assert_eq!(bump.allocate(256, 1), Some(0x1000));
    assert_eq!(bump.allocate(1, 1), None);
}

#[test]
fn bump_overflow_returns_oom() {
    // an arena at the very top of the address space: a request whose end
    // would overflow must fail cleanly, never wrap to a low address
    let start = usize::MAX - 1024;
    let mut bump = BumpAllocator::new();
    bump.init(start, 1024);
    assert_eq!(bump.allocate(usize::MAX, 1), None);
    assert_eq!(bump.next_addr(), start);
    assert_eq!(bump.allocate(1024, 1), Some(start));
}

#[test]
fn bump_conservation_at_quiescence() {
    // free bytes + consumed bytes always equal the arena size, and once the
    // last block is freed the whole arena is free again
    let mut bump = BumpAllocator::new();
    bump.init(0x2000, 512);
    let a = bump.allocate(64, 8).unwrap();
    let used = bump.next_addr() - bump.heap_start_addr();
    let free = bump.heap_end_addr() - bump.next_addr();
    assert_eq!(used + free, 512);
    assert_eq!(used, 64);
    bump.deallocate(a, 64);
    assert_eq!(bump.heap_end_addr() - bump.next_addr(), 512);
}

#[test]
fn bump_reassembles_when_idle() {
    // arena [0x1000, 0x1100): two 8-byte blocks, freed in reverse order,
    // leave the bump allocator idle, so a 256-byte request then succeeds
    let mut bump = BumpAllocator::new();
    bump.init(0x1000, 0x100);
    let a = bump.allocate(8, 8).unwrap();
    let b = bump.allocate(8, 8).unwrap();
    assert_eq!(a, 0x1000);
    assert_eq!(b, 0x1008);
    bump.deallocate(b, 8);
    assert_eq!(bump.next_addr(), 0x1008);
    bump.deallocate(a, 8);
    assert_eq!(bump.next_addr(), 0x1000);
    assert_eq!(bump.allocate(256, 1), Some(0x1000));
}
