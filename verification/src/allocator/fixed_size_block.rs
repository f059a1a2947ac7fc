//! Segregated fixed-size-block allocator backend: one free list of
//! ready-to-reuse blocks per power-of-two size class, with the free-list
//! allocator as supplier for first-time and oversize requests.
//!
//! A bare-metal build of such an allocator threads a next pointer through
//! each freed block; here every class's free list is a native list of block
//! start addresses.
use vstd::prelude::*;

use crate::allocator::linked_list::LinkedListAllocator;
use crate::allocator::linked_list::ListNode;
use crate::allocator::linked_list::covers;
use crate::allocator::linked_list::coalesced;
use crate::allocator::linked_list::ll_alloc_consumed;
use crate::allocator::linked_list::ll_alloc_result;
use crate::allocator::linked_list::size_align_spec;
use crate::allocator::linked_list::total_free;
use crate::allocator::linked_list::valid_request;
use crate::allocator::linked_list::NODE_ALIGN;
use crate::allocator::linked_list::NODE_SIZE;

verus! {

/// Number of size classes in the ladder {8, 16, ..., 2048}.
pub const BLOCK_CLASS_COUNT: usize = 9;

/// The block size of class `index` in the power-of-two ladder. Each class
/// size is a power of two, so it is also a legal alignment for that class.
pub open spec fn spec_block_size(index: int) -> int {
    if index == 0 {
        8
    } else if index == 1 {
        16
    } else if index == 2 {
        32
    } else if index == 3 {
        64
    } else if index == 4 {
        128
    } else if index == 5 {
        256
    } else if index == 6 {
        512
    } else if index == 7 {
        1024
    } else if index == 8 {
        2048
    } else {
        0
    }
}

/// The routing key of a request: a block must hold `size` bytes and, being
/// handed out at a class-aligned address, be at least as large as `align`.
pub open spec fn required_block_size(size: int, align: int) -> int {
    if size < align {
        align
    } else {
        size
    }
}

/// The class a key routes to, scanning the ladder upwards from `index`.
pub open spec fn spec_list_index_from(key: int, index: int) -> Option<int>
    decreases BLOCK_CLASS_COUNT - index,
{
    if index < 0 || index >= BLOCK_CLASS_COUNT {
        None
    } else if key <= spec_block_size(index) {
        Some(index)
    } else {
        spec_list_index_from(key, index + 1)
    }
}

/// The class a request routes to: the smallest class at least as large as
/// the request's key, or none when the key exceeds the largest class.
pub open spec fn spec_list_index(size: int, align: int) -> Option<int> {
    spec_list_index_from(required_block_size(size, align), 0)
}

/// Scanning from `0` and scanning from `index` agree once every class below
/// `index` is known to be too small.
proof fn lemma_list_index_skip(key: int, index: int)
    requires
        0 <= index <= BLOCK_CLASS_COUNT,
        forall|j: int| 0 <= j < index ==> spec_block_size(j) < key,
    ensures
        spec_list_index_from(key, 0) == spec_list_index_from(key, index),
    decreases index,
{
    if index > 0 {
        lemma_list_index_skip(key, index - 1);
    }
}

/// The block size of class `index`.
pub fn block_size(index: usize) -> (r: usize)
    requires
        index < BLOCK_CLASS_COUNT,
    ensures
        r == spec_block_size(index as int),
{
    if index == 0 {
        8
    } else if index == 1 {
        16
    } else if index == 2 {
        32
    } else if index == 3 {
        64
    } else if index == 4 {
        128
    } else if index == 5 {
        256
    } else if index == 6 {
        512
    } else if index == 7 {
        1024
    } else {
        2048
    }
}

/// The class with the smallest block size that satisfies the request, or
/// `None` when even the largest class is too small.
pub fn list_index(size: usize, align: usize) -> (r: Option<usize>)
    ensures
        match r {
            Some(i) => i < BLOCK_CLASS_COUNT && spec_list_index(size as int, align as int)
                == Some(i as int),
            None => spec_list_index(size as int, align as int) is None,
        },
{
    let required: usize = if size < align {
        align
    } else {
        size
    };
    let mut index: usize = 0;
    while index < BLOCK_CLASS_COUNT
        invariant
            0 <= index <= BLOCK_CLASS_COUNT,
            required == required_block_size(size as int, align as int),
            forall|j: int| 0 <= j < index ==> spec_block_size(j) < required,
        decreases BLOCK_CLASS_COUNT - index,
    {
        if block_size(index) >= required {
            proof {
                lemma_list_index_skip(required as int, index as int);
            }
            return Some(index);
        }
        index = index + 1;
    }
    proof {
        lemma_list_index_skip(required as int, BLOCK_CLASS_COUNT as int);
    }
    None
}

/// Per-class free lists are well formed: one list per class, and every block
/// on a class's list is aligned to — and fits below the address-space end at
/// — that class's block size.
pub open spec fn buckets_wf(b: Seq<Seq<usize>>) -> bool {
    &&& b.len() == BLOCK_CLASS_COUNT
    &&& forall|i: int, k: int|
        0 <= i < b.len() && 0 <= k < b[i].len() ==> (#[trigger] b[i][k]) as int % spec_block_size(
            i,
        ) == 0 && b[i][k] + spec_block_size(i) <= usize::MAX
}

/// Bytes held ready in the per-class free lists.
pub open spec fn bucket_bytes(b: Seq<Seq<usize>>) -> int
    decreases b.len(),
{
    if b.len() == 0 {
        0
    } else {
        bucket_bytes(b.drop_last()) + b.last().len() * spec_block_size(b.len() - 1)
    }
}

/// Replacing one class's list changes the held bytes by the length
/// difference times that class's block size.
proof fn lemma_bucket_bytes_update(b: Seq<Seq<usize>>, i: int, v: Seq<usize>)
    requires
        0 <= i < b.len(),
    ensures
        bucket_bytes(b.update(i, v)) == bucket_bytes(b) + (v.len() - b[i].len())
            * spec_block_size(i),
    decreases b.len(),
{
    let b2 = b.update(i, v);
    assert(b2.len() == b.len());
    if i == b.len() - 1 {
        assert(b2.drop_last() =~= b.drop_last());
        assert(b2.last() == v);
        assert(v.len() * spec_block_size(i) - b[i].len() * spec_block_size(i) == (v.len()
            - b[i].len()) * spec_block_size(i)) by (nonlinear_arith);
    } else {
        assert(b2.drop_last() =~= b.drop_last().update(i, v));
        assert(b2.last() == b.last());
        lemma_bucket_bytes_update(b.drop_last(), i, v);
    }
}

/// The segregated fixed-size-block allocator.
pub struct FixedSizeBlockAllocator {
    list_heads: Vec<Vec<usize>>,
    fallback_allocator: LinkedListAllocator,
}

impl FixedSizeBlockAllocator {
    /// The per-class free lists, as sequences of block start addresses.
    pub closed spec fn buckets(&self) -> Seq<Seq<usize>> {
        self.list_heads@.map_values(|v: Vec<usize>| v@)
    }

    /// The free regions of the fallback free-list allocator.
    pub closed spec fn fallback(&self) -> Seq<ListNode> {
        self.fallback_allocator@
    }

    /// Well-formed: the class lists carry their invariant and the fallback
    /// list is a well-formed free list.
    pub open spec fn wf(&self) -> bool {
        &&& buckets_wf(self.buckets())
        &&& crate::allocator::linked_list::regions_wf(self.fallback())
    }

    /// Total free bytes: whatever the fallback still holds plus the blocks
    /// parked in the class lists.
    pub open spec fn free_bytes(&self) -> int {
        total_free(self.fallback()) + bucket_bytes(self.buckets())
    }

    /// Create an empty fixed-size-block allocator.
    pub fn new() -> (r: Self)
        ensures
            r.wf(),
            r.fallback() == Seq::<ListNode>::empty(),
            forall|i: int| 0 <= i < BLOCK_CLASS_COUNT ==> (#[trigger] r.buckets()[i]).len() == 0,
            r.free_bytes() == 0,
    {
        let mut list_heads: Vec<Vec<usize>> = Vec::new();
        let mut i: usize = 0;
        while i < BLOCK_CLASS_COUNT
            invariant
                0 <= i <= BLOCK_CLASS_COUNT,
                list_heads@.len() == i,
                forall|j: int| 0 <= j < i ==> (#[trigger] list_heads@[j])@.len() == 0,
            decreases BLOCK_CLASS_COUNT - i,
        {
            list_heads.push(Vec::new());
            i = i + 1;
        }
        let r = FixedSizeBlockAllocator {
            list_heads,
            fallback_allocator: LinkedListAllocator::new(),
        };
        proof {
            lemma_empty_bucket_bytes(r.buckets());
        }
        r
    }

    /// Hand the allocator its arena; all of it goes to the fallback
    /// allocator, from which classes are supplied on demand. To be called
    /// exactly once, before any other operation.
    pub fn init(&mut self, heap_start: usize, heap_size: usize)
        requires
            old(self).wf(),
            old(self).fallback().len() == 0,
            heap_start as int % NODE_ALIGN as int == 0,
            NODE_SIZE <= heap_size,
            heap_start + heap_size <= usize::MAX,
        ensures
            final(self).wf(),
            final(self).buckets() == old(self).buckets(),
            final(self).fallback().len() == 1,
            final(self).fallback()[0].start == heap_start,
            final(self).fallback()[0].size == heap_size,
            final(self).free_bytes() == old(self).free_bytes() + heap_size,
    {
        self.fallback_allocator.init(heap_start, heap_size);
    }

    /// The number of blocks parked on class `index`'s free list.
    pub fn bucket_len(&self, index: usize) -> (n: usize)
        requires
            self.wf(),
            index < BLOCK_CLASS_COUNT,
        ensures
            n == self.buckets()[index as int].len(),
    {
        self.list_heads[index].len()
    }

    /// The fallback free-list allocator, for inspection.
    pub fn fallback_ref(&self) -> (r: &LinkedListAllocator)
        ensures
            r@ == self.fallback(),
    {
        &self.fallback_allocator
    }

    /// Allocate with the fallback free-list allocator.
    fn fallback_alloc(&mut self, size: usize, align: usize) -> (r: Option<usize>)
        requires
            old(self).wf(),
            valid_request(size as int, align as int),
        ensures
            final(self).wf(),
            final(self).buckets() == old(self).buckets(),
            ll_alloc_result(old(self).fallback(), size as int, align as int) matches Some(p)
                ==> r == Some((p as usize)) && 0 <= p && p + size_align_spec(
                size as int,
                align as int,
            ).0 <= usize::MAX && p % size_align_spec(size as int, align as int).1 == 0 && p as int
                % align as int == 0,
            ll_alloc_result(old(self).fallback(), size as int, align as int) is None ==> r
                is None,
            final(self).free_bytes() == old(self).free_bytes() - ll_alloc_consumed(
                old(self).fallback(),
                size as int,
                align as int,
            ),
    {
        self.fallback_allocator.allocate(size, align)
    }

    /// Allocate a block. The request routes to the smallest class that can
    /// hold it; a parked block of that class is reused if one is there (the
    /// fallback is not involved), otherwise exactly one block of the class's
    /// size and alignment is carved from the fallback. Requests beyond the
    /// largest class go to the fallback as they are.
    #[verifier::rlimit(60)]
    #[verifier::spinoff_prover]
    pub fn allocate(&mut self, size: usize, align: usize) -> (r: Option<usize>)
        requires
            old(self).wf(),
            valid_request(size as int, align as int),
        ensures
            final(self).wf(),
            r matches Some(p) ==> p as int % align as int == 0,
            ({
                match spec_list_index(size as int, align as int) {
                    Option::Some(i) => {
                        let bucket = old(self).buckets()[i];
                        if bucket.len() > 0 {
                            &&& r == Some(bucket.last())
                            &&& final(self).buckets() == old(self).buckets().update(
                                i,
                                bucket.drop_last(),
                            )
                            &&& final(self).fallback() == old(self).fallback()
                            &&& final(self).free_bytes() == old(self).free_bytes()
                                - spec_block_size(i)
                        } else {
                            let bs = spec_block_size(i);
                            &&& (ll_alloc_result(old(self).fallback(), bs, bs) matches Some(p)
                                ==> r == Some((p as usize)))
                            &&& (ll_alloc_result(old(self).fallback(), bs, bs) is None ==> r
                                is None)
                            &&& final(self).buckets() == old(self).buckets()
                            &&& final(self).free_bytes() == old(self).free_bytes()
                                - ll_alloc_consumed(old(self).fallback(), bs, bs)
                        }
                    },
                    Option::None => {
                        &&& (ll_alloc_result(old(self).fallback(), size as int, align as int)
                            matches Some(p) ==> r == Some((p as usize)))
                        &&& (ll_alloc_result(old(self).fallback(), size as int, align as int)
                            is None ==> r is None)
                        &&& final(self).buckets() == old(self).buckets()
                        &&& final(self).free_bytes() == old(self).free_bytes()
                            - ll_alloc_consumed(old(self).fallback(), size as int, align as int)
                    },
                }
            }),
    {
        match list_index(size, align) {
            Some(index) => {
                let ghost b0 = self.buckets();
                let popped = self.list_heads[index].pop();
                match popped {
                    Some(node_addr) => {
                        proof {
                            assert(self.buckets() =~= b0.update(
                                index as int,
                                b0[index as int].drop_last(),
                            ));
                            lemma_bucket_bytes_update(
                                b0,
                                index as int,
                                b0[index as int].drop_last(),
                            );
                            let b2 = self.buckets();
                            assert forall|i2: int, k2: int|
                                0 <= i2 < b2.len() && 0 <= k2 < b2[i2].len() implies (
                            #[trigger] b2[i2][k2]) as int % spec_block_size(i2) == 0
                                && b2[i2][k2] + spec_block_size(i2) <= usize::MAX by {
                                assert(b2[i2][k2] == b0[i2][k2]);
                            }
                            assert(node_addr == b0[index as int][b0[index as int].len() - 1]);
                            lemma_align_divides_block(
                                size as int,
                                align as int,
                                index as int,
                                node_addr as int,
                            );
                        }
                        proof {
                            assert(final(self).free_bytes() == old(self).free_bytes()
                                - spec_block_size(index as int));
                        }
                        Some(node_addr)
                    },
                    None => {
                        proof {
                            assert(self.buckets() =~= b0);
                            lemma_block_request_valid(index as int);
                        }
                        let bs = block_size(index);
                        let r = self.fallback_alloc(bs, bs);
                        proof {
                            let pr = ll_alloc_result(old(self).fallback(), bs as int, bs as int);
                            if pr is Some {
                                lemma_align_divides_block(
                                    size as int,
                                    align as int,
                                    index as int,
                                    pr->Some_0,
                                );
                            }
                        }
                        r
                    },
                }
            },
            None => {
                let r = self.fallback_alloc(size, align);
                proof {
                    let req = size_align_spec(size as int, align as int);
                    let pr = ll_alloc_result(old(self).fallback(), size as int, align as int);
                    if pr is Some {
                        reveal_with_fuel(vstd::arithmetic::power2::is_pow2, 13);
                        if align < NODE_ALIGN {
                            crate::allocator::lemma_pow2_le_divides(align as int, req.1);
                        }
                        crate::allocator::lemma_mod_trans(pr->Some_0, req.1, align as int);
                    }
                }
                r
            },
        }
    }

    /// Free the block at `ptr` that was allocated with the given size and
    /// alignment. A block of some class is parked on that class's free list,
    /// ready for the next same-class request; anything else returns to the
    /// fallback allocator.
    pub fn deallocate(&mut self, ptr: usize, size: usize, align: usize)
        requires
            old(self).wf(),
            valid_request(size as int, align as int),
            match spec_list_index(size as int, align as int) {
                Option::Some(i) => ptr as int % spec_block_size(i) == 0 && ptr + spec_block_size(
                    i,
                ) <= usize::MAX,
                Option::None => {
                    &&& ptr as int % NODE_ALIGN as int == 0
                    &&& ptr + size_align_spec(size as int, align as int).0 <= usize::MAX
                    &&& forall|k: int|
                        0 <= k < old(self).fallback().len() ==> ptr + size_align_spec(
                            size as int,
                            align as int,
                        ).0 <= (#[trigger] old(self).fallback()[k]).start || old(
                            self,
                        ).fallback()[k].end() <= ptr
                },
            },
        ensures
            final(self).wf(),
            ({
                match spec_list_index(size as int, align as int) {
                    Option::Some(i) => {
                        &&& final(self).buckets() == old(self).buckets().update(
                            i,
                            old(self).buckets()[i].push(ptr),
                        )
                        &&& final(self).fallback() == old(self).fallback()
                        &&& final(self).free_bytes() == old(self).free_bytes()
                            + spec_block_size(i)
                    },
                    Option::None => {
                        let psize = size_align_spec(size as int, align as int).0;
                        &&& final(self).buckets() == old(self).buckets()
                        &&& coalesced(final(self).fallback())
                        &&& final(self).free_bytes() == old(self).free_bytes() + psize
                        &&& (forall|a: int|
                            covers(final(self).fallback(), a) <==> covers(
                                old(self).fallback(),
                                a,
                            ) || (ptr <= a < ptr + psize))
                    },
                }
            }),
    {
        match list_index(size, align) {
            Some(index) => {
                let ghost b0 = self.buckets();
                self.list_heads[index].push(ptr);
                proof {
                    assert(self.buckets() =~= b0.update(
                        index as int,
                        b0[index as int].push(ptr),
                    ));
                    lemma_bucket_bytes_update(b0, index as int, b0[index as int].push(ptr));
                    assert(bucket_bytes(self.buckets()) == bucket_bytes(b0) + spec_block_size(
                        index as int,
                    ));
                    let b2 = self.buckets();
                    assert forall|i2: int, k2: int|
                        0 <= i2 < b2.len() && 0 <= k2 < b2[i2].len() implies (
                    #[trigger] b2[i2][k2]) as int % spec_block_size(i2) == 0 && b2[i2][k2]
                        + spec_block_size(i2) <= usize::MAX by {
                        if i2 == index && k2 == b2[i2].len() - 1 {
                            assert(b2[i2][k2] == ptr);
                        } else {
                            assert(b2[i2][k2] == b0[i2][k2]);
                        }
                    }
                }
            },
            None => {
                self.fallback_allocator.deallocate(ptr, size, align);
            },
        }
    }
}

/// A successful routing names a real class that is large enough for the key.
proof fn lemma_list_index_from_some(key: int, start: int)
    requires
        spec_list_index_from(key, start) is Some,
    ensures
        ({
            let i = spec_list_index_from(key, start)->Some_0;
            &&& start <= i < BLOCK_CLASS_COUNT
            &&& key <= spec_block_size(i)
        }),
    decreases BLOCK_CLASS_COUNT - start,
{
    if !(start < 0 || start >= BLOCK_CLASS_COUNT) && !(key <= spec_block_size(start)) {
        lemma_list_index_from_some(key, start + 1);
    }
}

/// Every class's block request is itself a request the fallback serves: the
/// block size is a power of two, and padding only raises the smallest class
/// to the node size.
proof fn lemma_block_request_valid(i: int)
    requires
        0 <= i < BLOCK_CLASS_COUNT,
    ensures
        valid_request(spec_block_size(i), spec_block_size(i)),
        vstd::arithmetic::power2::is_pow2(spec_block_size(i)),
        size_align_spec(spec_block_size(i), spec_block_size(i)).1 == spec_block_size(i),
        size_align_spec(spec_block_size(i), spec_block_size(i)).0 == if i == 0 {
            NODE_SIZE as int
        } else {
            spec_block_size(i)
        },
{
    reveal_with_fuel(vstd::arithmetic::power2::is_pow2, 13);
    let bs = spec_block_size(i);
    assert(vstd::arithmetic::power2::is_pow2(bs));
    assert(bs % bs == 0) by {
        vstd::arithmetic::div_mod::lemma_mod_self_0(bs);
    }
}

/// A block aligned to its class is aligned for the request that routed
/// there: the requested alignment is a power of two no larger than the
/// class's block size, which is itself a power of two.
proof fn lemma_align_divides_block(size: int, align: int, i: int, p: int)
    requires
        valid_request(size, align),
        spec_list_index(size, align) == Some(i),
        0 <= p,
        p % spec_block_size(i) == 0,
    ensures
        0 <= i < BLOCK_CLASS_COUNT,
        align <= spec_block_size(i),
        p % align == 0,
{
    lemma_list_index_from_some(required_block_size(size, align), 0);
    lemma_block_request_valid(i);
    assert(1 <= align) by {
        reveal(vstd::arithmetic::power2::is_pow2);
    }
    crate::allocator::lemma_pow2_le_divides(align, spec_block_size(i));
    crate::allocator::lemma_mod_trans(p, spec_block_size(i), align);
}

/// Class lists that are all empty hold no bytes.
proof fn lemma_empty_bucket_bytes(b: Seq<Seq<usize>>)
    requires
        forall|i: int| 0 <= i < b.len() ==> (#[trigger] b[i]).len() == 0,
    ensures
        bucket_bytes(b) == 0,
    decreases b.len(),
{
    if b.len() > 0 {
        lemma_empty_bucket_bytes(b.drop_last());
    }
}

spec fn self_fallback_snapshot(h: &FixedSizeBlockAllocator) -> Seq<ListNode> {
    h.fallback()
}

} // verus!

