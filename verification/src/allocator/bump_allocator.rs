//! Bump allocator backend: a monotonic cursor walks the arena forward on each
//! allocation; memory is reclaimed only when the most recent block is freed
//! (the cursor retracts) or when the last live block goes (full reset).
use vstd::prelude::*;

use crate::allocator::align_up_checked;
use crate::allocator::spec_align_up;

verus! {

/// Monotonic-cursor allocator over a fixed arena.
pub struct BumpAllocator {
    heap_start: usize,
    heap_end: usize,
    next: usize,
    allocations: usize,
}

impl BumpAllocator {
    /// Start of the managed arena.
    pub closed spec fn heap_start(&self) -> int {
        self.heap_start as int
    }

    /// One past the last byte of the managed arena.
    pub closed spec fn heap_end(&self) -> int {
        self.heap_end as int
    }

    /// The cursor: the lowest address not yet handed out (except after a
    /// retraction or reset).
    pub closed spec fn next(&self) -> int {
        self.next as int
    }

    /// Number of live allocations.
    pub closed spec fn allocations(&self) -> int {
        self.allocations as int
    }

    /// Bytes still available for bumping.
    pub open spec fn free_bytes(&self) -> int {
        self.heap_end() - self.next()
    }

    /// Bytes consumed so far (allocated blocks plus alignment padding).
    pub open spec fn used_bytes(&self) -> int {
        self.next() - self.heap_start()
    }

    /// The cursor always stays inside the arena, so free and used bytes
    /// always add up to the arena size.
    pub open spec fn wf(&self) -> bool {
        self.heap_start() <= self.next() <= self.heap_end()
    }

    /// Create a new empty bump allocator.
    pub fn new() -> (r: Self)
        ensures
            r.heap_start() == 0,
            r.heap_end() == 0,
            r.next() == 0,
            r.allocations() == 0,
            r.wf(),
    {
        BumpAllocator { heap_start: 0, heap_end: 0, next: 0, allocations: 0 }
    }

    /// Hand the allocator its arena. To be called exactly once, before any
    /// allocation, with a range the caller has made usable.
    pub fn init(&mut self, heap_start: usize, heap_size: usize)
        requires
            heap_start + heap_size <= usize::MAX,
        ensures
            final(self).heap_start() == heap_start,
            final(self).heap_end() == heap_start + heap_size,
            final(self).next() == heap_start,
            final(self).allocations() == old(self).allocations(),
            final(self).wf(),
            final(self).free_bytes() == heap_size,
    {
        self.heap_start = heap_start;
        self.heap_end = heap_start + heap_size;
        self.next = heap_start;
    }

    /// Allocate `size` bytes aligned to `align`: round the cursor up, check
    /// the block fits (overflow included), and advance the cursor past it.
    /// Returns the block's start address, or `None` when the arena is
    /// exhausted or the end address would overflow.
    pub fn allocate(&mut self, size: usize, align: usize) -> (r: Option<usize>)
        requires
            old(self).wf(),
            1 <= align,
            old(self).allocations() < usize::MAX,
        ensures
            final(self).wf(),
            final(self).heap_start() == old(self).heap_start(),
            final(self).heap_end() == old(self).heap_end(),
            ({
                let p = spec_align_up(old(self).next(), align as int);
                if p + size <= old(self).heap_end() {
                    &&& r == Some((p as usize))
                    &&& p % align as int == 0
                    &&& old(self).next() <= p
                    &&& final(self).next() == p + size
                    &&& final(self).allocations() == old(self).allocations() + 1
                    &&& final(self).free_bytes() == old(self).free_bytes() - size - (p - old(
                        self,
                    ).next())
                } else {
                    &&& r is None
                    &&& final(self).next() == old(self).next()
                    &&& final(self).allocations() == old(self).allocations()
                }
            }),
    {
        proof {
            crate::allocator::lemma_align_up(self.next as int, align as int);
        }
        let alloc_start = match align_up_checked(self.next, align) {
            Some(p) => p,
            None => {
                return None;
            },
        };
        let alloc_end = match alloc_start.checked_add(size) {
            Some(end) => end,
            None => {
                return None;
            },
        };
        if alloc_end > self.heap_end {
            None
        } else {
            self.next = alloc_end;
            self.allocations = self.allocations + 1;
            Some(alloc_start)
        }
    }

    /// The current cursor position.
    pub fn next_addr(&self) -> (r: usize)
        ensures
            r == self.next(),
    {
        self.next
    }

    /// The number of live allocations.
    pub fn allocation_count(&self) -> (r: usize)
        ensures
            r == self.allocations(),
    {
        self.allocations
    }

    /// Start of the managed arena.
    pub fn heap_start_addr(&self) -> (r: usize)
        ensures
            r == self.heap_start(),
    {
        self.heap_start
    }

    /// One past the last byte of the managed arena.
    pub fn heap_end_addr(&self) -> (r: usize)
        ensures
            r == self.heap_end(),
    {
        self.heap_end
    }

    /// Free the block at `ptr` of `size` bytes. The live count drops; if the
    /// block was the most recent allocation the cursor retracts over it, and
    /// when no allocation remains live the cursor resets to the arena start.
    pub fn deallocate(&mut self, ptr: usize, size: usize)
        requires
            old(self).wf(),
            1 <= old(self).allocations(),
            old(self).heap_start() <= ptr,
            ptr + size <= usize::MAX,
        ensures
            final(self).wf(),
            final(self).heap_start() == old(self).heap_start(),
            final(self).heap_end() == old(self).heap_end(),
            final(self).allocations() == old(self).allocations() - 1,
            final(self).next() == if old(self).allocations() == 1 {
                old(self).heap_start()
            } else if ptr + size == old(self).next() {
                ptr as int
            } else {
                old(self).next()
            },
            old(self).allocations() == 1 ==> final(self).free_bytes() == final(self).heap_end()
                - final(self).heap_start(),
    {
        self.allocations = self.allocations - 1;

        if ptr + size == self.next {
            self.next = ptr;
        }

        if self.allocations == 0 {
            self.next = self.heap_start;
        }
    }
}

} // verus!
