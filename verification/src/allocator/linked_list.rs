//! Free-list allocator backend: an address-ordered list of free regions,
//! split on allocation and coalesced on free.
//!
//! A bare-metal build of such an allocator stores each list node inside the
//! free bytes it describes; here the list is a native sequence of
//! (start, size) records, and the node-size and node-alignment requirements
//! that in-place storage imposes are kept as explicit invariants.
use vstd::prelude::*;

use crate::allocator::align_up;
use crate::allocator::align_up_checked;
use crate::allocator::lemma_align_up;
use crate::allocator::spec_align_up;

verus! {

/// In-memory footprint of a free-list node header: every free region must be
/// able to host one, so no region may be smaller.
pub const NODE_SIZE: usize = 16;

/// Alignment of a free-list node header: every free region must start at a
/// multiple of it.
pub const NODE_ALIGN: usize = 8;

/// One free region: `size` bytes starting at address `start`.
#[derive(Debug, Clone, Copy, PartialEq, Eq, Structural)]
pub struct ListNode {
    pub start: usize,
    pub size: usize,
}

impl ListNode {
    /// A record for the region of `size` bytes at `start`.
    pub fn new(start: usize, size: usize) -> (r: ListNode)
        ensures
            r.start == start,
            r.size == size,
    {
        ListNode { start, size }
    }

    /// The region's first address.
    pub fn start_addr(&self) -> (r: usize)
        ensures
            r == self.start,
    {
        self.start
    }

    /// One past the region's last address.
    pub fn end_addr(&self) -> (r: usize)
        requires
            self.start + self.size <= usize::MAX,
        ensures
            r == self.start + self.size,
    {
        self.start + self.size
    }

    /// One past the region's last address, as a mathematical value.
    pub open spec fn end(self) -> int {
        self.start + self.size
    }
}

/// A single region is well formed: start aligned for a node header, size big
/// enough for one, end address representable.
pub open spec fn node_wf(n: ListNode) -> bool {
    &&& n.start as int % NODE_ALIGN as int == 0
    &&& n.size >= NODE_SIZE
    &&& n.start + n.size <= usize::MAX
}

/// The whole list is well formed: every region well formed, and regions
/// pairwise disjoint in strictly increasing address order (each region ends
/// at or before its successor starts).
pub open spec fn regions_wf(s: Seq<ListNode>) -> bool {
    &&& forall|i: int| 0 <= i < s.len() ==> node_wf(#[trigger] s[i])
    &&& forall|i: int| 0 <= i && i + 1 < s.len() ==> (#[trigger] s[i]).end() <= s[i + 1].start
}

/// Fully coalesced: no two neighbouring regions touch, so no merge is
/// possible anywhere.
pub open spec fn coalesced(s: Seq<ListNode>) -> bool {
    forall|i: int| 0 <= i && i + 1 < s.len() ==> (#[trigger] s[i]).end() < s[i + 1].start
}

/// Whether address `a` lies in some region of the list.
pub open spec fn covers(s: Seq<ListNode>, a: int) -> bool {
    exists|i: int| 0 <= i < s.len() && (#[trigger] s[i]).start <= a < s[i].end()
}

/// Two lists make the same addresses free. Kept opaque so that reasoning
/// about it stays at the level of whole lists; lemmas open it up.
#[verifier::opaque]
pub open spec fn same_coverage(s1: Seq<ListNode>, s2: Seq<ListNode>) -> bool {
    forall|a: int| covers(s1, a) <==> covers(s2, a)
}

/// Coverage equality is reflexive.
proof fn lemma_same_coverage_refl(s: Seq<ListNode>)
    ensures
        same_coverage(s, s),
{
    reveal(same_coverage);
}

/// Coverage equality chains.
proof fn lemma_same_coverage_trans(s1: Seq<ListNode>, s2: Seq<ListNode>, s3: Seq<ListNode>)
    requires
        same_coverage(s1, s2),
        same_coverage(s2, s3),
    ensures
        same_coverage(s1, s3),
{
    reveal(same_coverage);
}

/// Total number of free bytes in the list.
pub open spec fn total_free(s: Seq<ListNode>) -> int
    decreases s.len(),
{
    if s.len() == 0 {
        0
    } else {
        s[0].size + total_free(s.drop_first())
    }
}

/// The index at which a region starting at `addr` belongs: just before the
/// first region whose start is not below `addr`.
pub open spec fn insert_position(s: Seq<ListNode>, addr: int) -> int
    decreases s.len(),
{
    if s.len() == 0 {
        0
    } else if s[0].start >= addr {
        0
    } else {
        1 + insert_position(s.drop_first(), addr)
    }
}

/// In a well-formed list, regions are pairwise disjoint and strictly ordered:
/// any earlier region ends at or before any later region starts.
pub proof fn lemma_regions_pairwise_disjoint(s: Seq<ListNode>)
    requires
        regions_wf(s),
    ensures
        forall|i: int, j: int|
            0 <= i < j < s.len() ==> (#[trigger] s[i]).end() <= (#[trigger] s[j]).start,
{
    assert forall|i: int, j: int|
        0 <= i < j < s.len() implies (#[trigger] s[i]).end() <= (#[trigger] s[j]).start by {
        lemma_ordered_pair(s, i, j);
    }
}

/// Order between one fixed pair of regions, by induction on the distance.
proof fn lemma_ordered_pair(s: Seq<ListNode>, i: int, j: int)
    requires
        regions_wf(s),
        0 <= i < j < s.len(),
    ensures
        s[i].end() <= s[j].start,
        s[i].start < s[j].start,
    decreases j - i,
{
    if i + 1 == j {
    } else {
        lemma_ordered_pair(s, i, j - 1);
        assert(s[j - 1].end() <= s[j].start);
    }
}

/// Inserting a region adds its size to the free total.
proof fn lemma_total_free_insert(s: Seq<ListNode>, k: int, n: ListNode)
    requires
        0 <= k <= s.len(),
    ensures
        total_free(s.insert(k, n)) == total_free(s) + n.size,
    decreases s.len(),
{
    let s2 = s.insert(k, n);
    s.insert_ensures(k, n);
    if k == 0 {
        assert(s2.drop_first() =~= s);
    } else {
        assert(s2[0] == s[0]);
        assert(s2.drop_first() =~= s.drop_first().insert(k - 1, n)) by {
            s.drop_first().insert_ensures(k - 1, n);
        }
        lemma_total_free_insert(s.drop_first(), k - 1, n);
    }
}

/// Removing a region subtracts its size from the free total.
proof fn lemma_total_free_remove(s: Seq<ListNode>, k: int)
    requires
        0 <= k < s.len(),
    ensures
        total_free(s.remove(k)) == total_free(s) - s[k].size,
    decreases s.len(),
{
    let s2 = s.remove(k);
    s.remove_ensures(k);
    if k == 0 {
        assert(s2 =~= s.drop_first());
    } else {
        assert(s2[0] == s[0]);
        assert(s2.drop_first() =~= s.drop_first().remove(k - 1)) by {
            s.drop_first().remove_ensures(k - 1);
        }
        lemma_total_free_remove(s.drop_first(), k - 1);
    }
}

/// Replacing a region changes the free total by the difference in sizes.
proof fn lemma_total_free_update(s: Seq<ListNode>, k: int, n: ListNode)
    requires
        0 <= k < s.len(),
    ensures
        total_free(s.update(k, n)) == total_free(s) - s[k].size + n.size,
    decreases s.len(),
{
    let s2 = s.update(k, n);
    if k == 0 {
        assert(s2.drop_first() =~= s.drop_first());
    } else {
        assert(s2[0] == s[0]);
        assert(s2.drop_first() =~= s.drop_first().update(k - 1, n));
        lemma_total_free_update(s.drop_first(), k - 1, n);
    }
}

/// Appending a region adds its size to the free total.
proof fn lemma_total_free_push(s: Seq<ListNode>, n: ListNode)
    ensures
        total_free(s.push(n)) == total_free(s) + n.size,
    decreases s.len(),
{
    let s2 = s.push(n);
    if s.len() == 0 {
        assert(s2.drop_first() =~= s);
    } else {
        assert(s2[0] == s[0]);
        assert(s2.drop_first() =~= s.drop_first().push(n));
        lemma_total_free_push(s.drop_first(), n);
    }
}

/// A well-formed list's free bytes fit between its first region's start and
/// its last region's end: the regions are disjoint spans of that range.
proof fn lemma_total_free_bounded(s: Seq<ListNode>)
    requires
        regions_wf(s),
        0 < s.len(),
    ensures
        s[0].start + total_free(s) <= s.last().end(),
    decreases s.len(),
{
    if s.len() == 1 {
        assert(total_free(s.drop_first()) == 0);
    } else {
        let rest = s.drop_first();
        assert(regions_wf(rest)) by {
            assert(forall|i: int| 0 <= i < rest.len() ==> rest[i] == s[i + 1]);
        }
        lemma_total_free_bounded(rest);
        assert(rest.last() == s.last());
        assert(s[0].end() <= s[1].start);
    }
}

/// Every prefix of a well-formed list is well formed.
proof fn lemma_prefix_wf(s: Seq<ListNode>, k: int)
    requires
        regions_wf(s),
        0 <= k <= s.len(),
    ensures
        regions_wf(s.subrange(0, k)),
{
    let p = s.subrange(0, k);
    assert(forall|i: int| 0 <= i < p.len() ==> p[i] == s[i]);
}

/// After an insertion, the covered addresses are the old ones plus the new
/// region's span.
proof fn lemma_covers_insert(s: Seq<ListNode>, k: int, n: ListNode)
    requires
        0 <= k <= s.len(),
    ensures
        forall|a: int|
            covers(#[trigger] s.insert(k, n), a) <==> covers(s, a) || (n.start <= a < n.end()),
{
    let s2 = s.insert(k, n);
    s.insert_ensures(k, n);
    assert forall|a: int| covers(s2, a) <==> covers(s, a) || (n.start <= a < n.end()) by {
        if covers(s2, a) {
            let i = choose|i: int| 0 <= i < s2.len() && (#[trigger] s2[i]).start <= a < s2[i].end();
            if i < k {
                assert(s[i].start <= a < s[i].end());
            } else if i == k {
                assert(n.start <= a < n.end());
            } else {
                assert(s[i - 1].start <= a < s[i - 1].end());
            }
        }
        if covers(s, a) {
            let i = choose|i: int| 0 <= i < s.len() && (#[trigger] s[i]).start <= a < s[i].end();
            if i < k {
                assert(s2[i].start <= a < s2[i].end());
            } else {
                assert(s2[i + 1].start <= a < s2[i + 1].end());
            }
        }
        if n.start <= a < n.end() {
            assert(s2[k].start <= a < s2[k].end());
        }
    }
}

/// After a removal from a well-formed list, the covered addresses are the old
/// ones minus the removed region's span.
proof fn lemma_covers_remove(s: Seq<ListNode>, k: int)
    requires
        regions_wf(s),
        0 <= k < s.len(),
    ensures
        forall|a: int|
            covers(#[trigger] s.remove(k), a) <==> covers(s, a) && !(s[k].start <= a < s[k].end()),
{
    let s2 = s.remove(k);
    s.remove_ensures(k);
    lemma_regions_pairwise_disjoint(s);
    assert forall|a: int| covers(s2, a) <==> covers(s, a) && !(s[k].start <= a < s[k].end()) by {
        if covers(s2, a) {
            let i = choose|i: int| 0 <= i < s2.len() && (#[trigger] s2[i]).start <= a < s2[i].end();
            if i < k {
                assert(s[i].start <= a < s[i].end());
                assert(s[i].end() <= s[k].start);
            } else {
                assert(s[i + 1].start <= a < s[i + 1].end());
                assert(s[k].end() <= s[i + 1].start);
            }
        }
        if covers(s, a) && !(s[k].start <= a < s[k].end()) {
            let i = choose|i: int| 0 <= i < s.len() && (#[trigger] s[i]).start <= a < s[i].end();
            if i < k {
                assert(s2[i].start <= a < s2[i].end());
            } else {
                assert(i != k);
                assert(s2[i - 1].start <= a < s2[i - 1].end());
            }
        }
    }
}

/// `insert_position` is determined by any index whose prefix starts below
/// `addr` and whose own region (if any) starts at or above it.
proof fn lemma_insert_position_at(s: Seq<ListNode>, addr: int, k: int)
    requires
        0 <= k <= s.len(),
        forall|j: int| 0 <= j < k ==> (#[trigger] s[j]).start < addr,
        k < s.len() ==> s[k].start >= addr,
    ensures
        insert_position(s, addr) == k,
    decreases s.len(),
{
    if s.len() == 0 {
    } else if s[0].start >= addr {
        assert(k == 0);
    } else {
        assert(s[0].start < addr);
        assert(k != 0);
        lemma_insert_position_at(s.drop_first(), addr, k - 1);
    }
}

/// What allocating `size` bytes aligned to `align` from one region yields:
/// the block's start address, or nothing when the block does not fit or
/// would leave a sliver too small to host a node header.
pub open spec fn alloc_from_region_spec(region: ListNode, size: int, align: int) -> Option<int> {
    let alloc_start = spec_align_up(region.start as int, align);
    let alloc_end = alloc_start + size;
    let excess_size = region.end() - alloc_end;
    if alloc_end > region.end() {
        None
    } else if 0 < excess_size < NODE_SIZE {
        None
    } else {
        Some(alloc_start)
    }
}

/// The first-fit choice over the whole list: the index of the first region
/// the request can be carved from, with the block's start address.
pub open spec fn first_fit(s: Seq<ListNode>, size: int, align: int) -> Option<(int, int)>
    decreases s.len(),
{
    if s.len() == 0 {
        None
    } else {
        match alloc_from_region_spec(s[0], size, align) {
            Some(p) => Some((0, p)),
            None => match first_fit(s.drop_first(), size, align) {
                Some(jp) => Some((jp.0 + 1, jp.1)),
                None => None,
            },
        }
    }
}

/// The size and alignment actually carved for a request, padded so that the
/// block can host a node header once it is freed again: alignment raised to
/// at least the node alignment, size rounded up to a multiple of that and to
/// at least the node size.
pub open spec fn size_align_spec(size: int, align: int) -> (int, int) {
    let a = if align < NODE_ALIGN { NODE_ALIGN as int } else { align };
    let padded = spec_align_up(size, a);
    let s = if padded < NODE_SIZE { NODE_SIZE as int } else { padded };
    (s, a)
}

/// An allocation request the allocator serves: a power-of-two alignment (as
/// every layout has) and a size whose padded form still fits the address
/// space.
pub open spec fn valid_request(size: int, align: int) -> bool {
    &&& vstd::arithmetic::power2::is_pow2(align)
    &&& 0 <= size
    &&& size_align_spec(size, align).0 <= usize::MAX
}

/// The address the free-list allocator hands out for a request, if any:
/// the first-fit choice for the padded request.
pub open spec fn ll_alloc_result(s: Seq<ListNode>, size: int, align: int) -> Option<int> {
    let req = size_align_spec(size, align);
    match first_fit(s, req.0, req.1) {
        Some(jp) => Some(jp.1),
        None => None,
    }
}

/// How many free bytes an allocation consumes: the padded block plus any
/// alignment padding swallowed from the front of the carved region.
pub open spec fn ll_alloc_consumed(s: Seq<ListNode>, size: int, align: int) -> int {
    let req = size_align_spec(size, align);
    match first_fit(s, req.0, req.1) {
        Some(jp) => req.0 + (jp.1 - s[jp.0].start),
        None => 0,
    }
}

/// The first-fit choice is determined by any scan prefix that fails: if all
/// regions below `k` reject the request, the choice is at `k` when region `k`
/// accepts it, and absent when the scan ran off the end.
proof fn lemma_first_fit_at(s: Seq<ListNode>, size: int, align: int, k: int)
    requires
        0 <= k <= s.len(),
        forall|j: int|
            0 <= j < k ==> alloc_from_region_spec(#[trigger] s[j], size, align) is None,
    ensures
        k == s.len() ==> first_fit(s, size, align) is None,
        k < s.len() ==> (alloc_from_region_spec(s[k], size, align) matches Some(p) ==> first_fit(
            s,
            size,
            align,
        ) == Some((k, p))),
    decreases s.len(),
{
    if s.len() == 0 {
    } else if k == 0 {
    } else {
        assert(alloc_from_region_spec(s[0], size, align) is None);
        lemma_first_fit_at(s.drop_first(), size, align, k - 1);
    }
}

/// A successful first-fit choice names a real region of the list, and that
/// region accepts the request at the chosen address.
proof fn lemma_first_fit_some(s: Seq<ListNode>, size: int, align: int)
    requires
        first_fit(s, size, align) is Some,
    ensures
        ({
            let jp = first_fit(s, size, align)->Some_0;
            &&& 0 <= jp.0 < s.len()
            &&& alloc_from_region_spec(s[jp.0], size, align) == Some(jp.1)
        }),
    decreases s.len(),
{
    if s.len() == 0 {
    } else if alloc_from_region_spec(s[0], size, align) is Some {
    } else {
        lemma_first_fit_some(s.drop_first(), size, align);
    }
}

/// One coalescing step: absorbing an adjacent successor into its predecessor
/// keeps the list well formed and changes neither the free total nor the set
/// of covered addresses.
#[verifier::rlimit(30)]
#[verifier::spinoff_prover]
proof fn lemma_merge_step(s: Seq<ListNode>, k: int)
    requires
        regions_wf(s),
        0 <= k,
        k + 1 < s.len(),
        s[k].end() == s[k + 1].start,
    ensures
        ({
            let merged = ListNode {
                start: s[k].start,
                size: (s[k].size + s[k + 1].size) as usize,
            };
            let s2 = s.remove(k + 1).update(k, merged);
            &&& regions_wf(s2)
            &&& s2.len() == s.len() - 1
            &&& total_free(s2) == total_free(s)
            &&& same_coverage(s2, s)
            &&& (forall|j: int| 0 <= j < k ==> s2[j] == s[j])
            &&& s2[k] == merged
            &&& (forall|j: int| k < j < s2.len() ==> s2[j] == s[j + 1])
        }),
{
    let merged = ListNode { start: s[k].start, size: (s[k].size + s[k + 1].size) as usize };
    let sr = s.remove(k + 1);
    let s2 = sr.update(k, merged);
    s.remove_ensures(k + 1);
    assert(s[k].size + s[k + 1].size <= usize::MAX);
    assert(merged.end() == s[k + 1].end());
    lemma_total_free_remove(s, k + 1);
    lemma_total_free_update(sr, k, merged);
    lemma_covers_remove(s, k + 1);
    // Well-formedness of the result.
    assert forall|i: int| 0 <= i < s2.len() implies node_wf(#[trigger] s2[i]) by {
        if i < k {
            assert(s2[i] == s[i]);
        } else if i == k {
            assert(node_wf(s[k]) && node_wf(s[k + 1]));
        } else {
            assert(s2[i] == s[i + 1]);
        }
    }
    assert forall|i: int| 0 <= i && i + 1 < s2.len() implies (#[trigger] s2[i]).end() <= s2[i
        + 1].start by {
        if i + 1 < k {
            assert(s2[i] == s[i] && s2[i + 1] == s[i + 1]);
        } else if i + 1 == k {
            assert(s2[i] == s[i] && s2[i + 1] == merged);
        } else if i == k {
            assert(s2[i] == merged && s2[i + 1] == s[i + 2]);
            assert(s[k + 1].end() <= s[k + 2].start);
        } else {
            assert(s2[i] == s[i + 1] && s2[i + 1] == s[i + 2]);
        }
    }
    // The merged region covers exactly what its two halves covered.
    reveal(same_coverage);
    assert forall|a: int| covers(s2, a) <==> covers(s, a) by {
        if covers(s2, a) {
            let i = choose|i: int| 0 <= i < s2.len() && (#[trigger] s2[i]).start <= a < s2[i].end();
            if i < k {
                assert(s[i].start <= a < s[i].end());
            } else if i == k {
                if a < s[k].end() {
                    assert(s[k].start <= a < s[k].end());
                } else {
                    assert(s[k + 1].start <= a < s[k + 1].end());
                }
            } else {
                assert(s[i + 1].start <= a < s[i + 1].end());
            }
        }
        if covers(s, a) {
            let i = choose|i: int| 0 <= i < s.len() && (#[trigger] s[i]).start <= a < s[i].end();
            if i < k {
                assert(s2[i].start <= a < s2[i].end());
            } else if i == k || i == k + 1 {
                assert(s2[k].start <= a < s2[k].end());
            } else {
                assert(s2[i - 1].start <= a < s2[i - 1].end());
            }
        }
    }
}

/// One loop step of the coalescing pass, packaged for the loop: all its
/// invariants carry over to the shrunk list.
proof fn lemma_merge_loop_step(orig: Seq<ListNode>, s: Seq<ListNode>, k: int)
    requires
        regions_wf(s),
        0 <= k,
        k + 1 < s.len(),
        s[k].end() == s[k + 1].start,
        total_free(s) == total_free(orig),
        same_coverage(s, orig),
        forall|j: int| 0 <= j < k && j + 1 < s.len() ==> (#[trigger] s[j]).end() < s[j + 1].start,
    ensures
        ({
            let merged = ListNode {
                start: s[k].start,
                size: (s[k].size + s[k + 1].size) as usize,
            };
            let s2 = s.remove(k + 1).update(k, merged);
            &&& regions_wf(s2)
            &&& s2.len() == s.len() - 1
            &&& total_free(s2) == total_free(orig)
            &&& same_coverage(s2, orig)
            &&& (forall|j: int|
                0 <= j < k && j + 1 < s2.len() ==> (#[trigger] s2[j]).end() < s2[j + 1].start)
        }),
{
    let merged = ListNode { start: s[k].start, size: (s[k].size + s[k + 1].size) as usize };
    let s2 = s.remove(k + 1).update(k, merged);
    lemma_merge_step(s, k);
    lemma_same_coverage_trans(s2, s, orig);
    assert forall|j: int| 0 <= j < k && j + 1 < s2.len() implies (#[trigger] s2[j]).end() < s2[j
        + 1].start by {
        assert(s2[j] == s[j]);
        if j + 1 < k {
            assert(s2[j + 1] == s[j + 1]);
        } else {
            assert(s2[k].start == s[k].start);
        }
    }
}

/// Stepping past a non-adjacent pair extends the coalesced prefix.
proof fn lemma_skip_loop_step(s: Seq<ListNode>, k: int)
    requires
        regions_wf(s),
        0 <= k,
        k + 1 < s.len(),
        s[k].end() != s[k + 1].start,
        forall|j: int| 0 <= j < k && j + 1 < s.len() ==> (#[trigger] s[j]).end() < s[j + 1].start,
    ensures
        forall|j: int|
            0 <= j < k + 1 && j + 1 < s.len() ==> (#[trigger] s[j]).end() < s[j + 1].start,
{
    assert forall|j: int| 0 <= j < k + 1 && j + 1 < s.len() implies (#[trigger] s[j]).end() < s[j
        + 1].start by {
        if j == k {
            assert(s[j].end() <= s[j + 1].start);
        }
    }
}

/// The free-list allocator: an address-ordered list of free regions.
pub struct LinkedListAllocator {
    regions: Vec<ListNode>,
}

impl View for LinkedListAllocator {
    type V = Seq<ListNode>;

    closed spec fn view(&self) -> Seq<ListNode> {
        self.regions@
    }
}

impl LinkedListAllocator {
    /// The free list is well formed (disjoint, ordered, node-sized regions).
    pub open spec fn wf(&self) -> bool {
        regions_wf(self@)
    }

    /// Total number of free bytes on the list.
    pub open spec fn free_bytes(&self) -> int {
        total_free(self@)
    }

    /// Create an empty free-list allocator.
    pub fn new() -> (r: Self)
        ensures
            r@ == Seq::<ListNode>::empty(),
            r.wf(),
    {
        LinkedListAllocator { regions: Vec::new() }
    }

    /// Hand the allocator its arena, registered as one big free region. To be
    /// called exactly once, before any other operation, with a range the
    /// caller has made usable.
    pub fn init(&mut self, heap_start: usize, heap_size: usize)
        requires
            old(self)@.len() == 0,
            heap_start as int % NODE_ALIGN as int == 0,
            NODE_SIZE <= heap_size,
            heap_start + heap_size <= usize::MAX,
        ensures
            final(self).wf(),
            final(self)@.len() == 1,
            final(self)@[0].start == heap_start,
            final(self)@[0].size == heap_size,
            final(self).free_bytes() == heap_size,
            forall|a: int| covers(final(self)@, a) <==> heap_start <= a < heap_start + heap_size,
    {
        self.add_free_region(heap_start, heap_size);
    }

    /// Splice the free region `[addr, addr + size)` into the list just before
    /// the first region that starts above it, keeping the address order. The
    /// region must be aligned and large enough to host a node header, and
    /// must not overlap anything already free.
    pub fn add_free_region(&mut self, addr: usize, size: usize)
        requires
            old(self).wf(),
            addr as int % NODE_ALIGN as int == 0,
            NODE_SIZE <= size,
            addr + size <= usize::MAX,
            forall|i: int|
                0 <= i < old(self)@.len() ==> addr + size <= (#[trigger] old(self)@[i]).start
                    || old(self)@[i].end() <= addr,
        ensures
            final(self).wf(),
            final(self)@ == old(self)@.insert(
                insert_position(old(self)@, addr as int),
                (ListNode { start: addr, size }),
            ),
            final(self)@.len() == old(self)@.len() + 1,
            final(self).free_bytes() == old(self).free_bytes() + size,
            forall|a: int| covers(final(self)@, a) <==> covers(old(self)@, a) || (addr <= a < addr + size),
    {
        let ghost s0 = self@;
        let new_node = ListNode::new(addr, size);
        let mut idx: usize = 0;
        while idx < self.regions.len() && self.regions[idx].start < addr
            invariant
                self@ == s0,
                s0 == old(self)@,
                0 <= idx <= s0.len(),
                forall|j: int| 0 <= j < idx ==> (#[trigger] s0[j]).start < addr,
            decreases s0.len() - idx,
        {
            idx = idx + 1;
        }
        proof {
            lemma_insert_position_at(s0, addr as int, idx as int);
            lemma_regions_pairwise_disjoint(s0);
            lemma_total_free_insert(s0, idx as int, new_node);
            lemma_covers_insert(s0, idx as int, new_node);
            s0.insert_ensures(idx as int, new_node);
        }
        self.regions.insert(idx, new_node);
        proof {
            let s2 = self@;
            let k = idx as int;
            assert forall|i: int| 0 <= i && i + 1 < s2.len() implies (#[trigger] s2[i]).end()
                <= s2[i + 1].start by {
                if i + 1 < k {
                    assert(s2[i] == s0[i] && s2[i + 1] == s0[i + 1]);
                } else if i + 1 == k {
                    assert(s2[i] == s0[i] && s2[i + 1] == new_node);
                    assert(s0[i].start < addr);
                    assert(addr + size <= s0[i].start || s0[i].end() <= addr);
                } else if i == k {
                    assert(s2[i] == new_node && s2[i + 1] == s0[i]);
                    assert(s0[i].start >= addr);
                    assert(addr + size <= s0[i].start || s0[i].end() <= addr);
                } else {
                    assert(s2[i] == s0[i - 1] && s2[i + 1] == s0[i]);
                }
            }
        }
    }

    /// Try to carve `size` bytes aligned to `align` out of `region`: align
    /// the region's start upwards, then fail if the block overruns the region
    /// or would leave a nonzero leftover too small for a node header.
    pub fn alloc_from_region(region: &ListNode, size: usize, align: usize) -> (r: Result<
        usize,
        (),
    >)
        requires
            node_wf(*region),
            1 <= align,
        ensures
            match r {
                Ok(p) => alloc_from_region_spec(*region, size as int, align as int) == Some(
                    p as int,
                ),
                Err(()) => alloc_from_region_spec(*region, size as int, align as int) is None,
            },
    {
        proof {
            lemma_align_up(region.start as int, align as int);
        }
        let alloc_start = match align_up_checked(region.start_addr(), align) {
            Some(p) => p,
            None => {
                return Err(());
            },
        };
        let alloc_end = match alloc_start.checked_add(size) {
            Some(end) => end,
            None => {
                return Err(());
            },
        };
        if alloc_end > region.end_addr() {
            return Err(());
        }
        let excess_size = region.end_addr() - alloc_end;
        if excess_size > 0 && excess_size < NODE_SIZE {
            return Err(());
        }
        Ok(alloc_start)
    }

    /// Pad a request so the block can host a node header when it is freed:
    /// raise the alignment to at least the node alignment, round the size up
    /// to a multiple of it and to at least the node size.
    pub fn size_align(size: usize, align: usize) -> (r: (usize, usize))
        requires
            valid_request(size as int, align as int),
        ensures
            (r.0 as int, r.1 as int) == size_align_spec(size as int, align as int),
            NODE_SIZE <= r.0,
            NODE_ALIGN <= r.1,
            size <= r.0,
            align <= r.1,
    {
        let a = if align < NODE_ALIGN {
            NODE_ALIGN
        } else {
            align
        };
        proof {
            lemma_align_up(size as int, a as int);
        }
        let padded = align_up(size, a);
        let s = if padded < NODE_SIZE {
            NODE_SIZE
        } else {
            padded
        };
        (s, a)
    }

    /// First-fit scan: walk the list in address order and detach the first
    /// region the request can be carved from, returning it with the block's
    /// start address. `None` when no region satisfies the request.
    pub fn find_region(&mut self, size: usize, align: usize) -> (r: Option<(ListNode, usize)>)
        requires
            old(self).wf(),
            1 <= align,
        ensures
            final(self).wf(),
            match r {
                Some(pair) => first_fit(old(self)@, size as int, align as int) matches Some(jp)
                    && pair.0 == old(self)@[jp.0] && pair.1 == jp.1 && final(self)@ == old(
                    self,
                )@.remove(jp.0) && alloc_from_region_spec(pair.0, size as int, align as int)
                    == Some(pair.1 as int) && final(self).free_bytes() == old(self).free_bytes()
                    - pair.0.size && (forall|a: int|
                    covers(final(self)@, a) <==> covers(old(self)@, a) && !(pair.0.start <= a
                        < pair.0.end())),
                None => first_fit(old(self)@, size as int, align as int) is None && final(self)@
                    == old(self)@,
            },
    {
        let ghost s0 = self@;
        let mut idx: usize = 0;
        while idx < self.regions.len()
            invariant
                self@ == s0,
                s0 == old(self)@,
                regions_wf(s0),
                1 <= align,
                0 <= idx <= s0.len(),
                forall|j: int|
                    0 <= j < idx ==> alloc_from_region_spec(
                        #[trigger] s0[j],
                        size as int,
                        align as int,
                    ) is None,
            decreases s0.len() - idx,
        {
            let region = self.regions[idx];
            match Self::alloc_from_region(&region, size, align) {
                Ok(alloc_start) => {
                    proof {
                        lemma_first_fit_at(s0, size as int, align as int, idx as int);
                        lemma_total_free_remove(s0, idx as int);
                        lemma_covers_remove(s0, idx as int);
                        lemma_regions_pairwise_disjoint(s0);
                        s0.remove_ensures(idx as int);
                    }
                    self.regions.remove(idx);
                    proof {
                        let s2 = self@;
                        let k = idx as int;
                        assert forall|i: int| 0 <= i && i + 1 < s2.len() implies (
                        #[trigger] s2[i]).end() <= s2[i + 1].start by {
                            if i + 1 < k {
                                assert(s2[i] == s0[i] && s2[i + 1] == s0[i + 1]);
                            } else {
                                assert(s2[i + 1] == s0[i + 2]);
                            }
                        }
                    }
                    return Some((region, alloc_start));
                },
                Err(_) => {
                    idx = idx + 1;
                },
            }
        }
        proof {
            lemma_first_fit_at(s0, size as int, align as int, s0.len() as int);
        }
        None
    }

    /// The number of regions currently on the free list.
    pub fn region_count(&self) -> (n: usize)
        ensures
            n == self@.len(),
    {
        self.regions.len()
    }

    /// The free region at position `i` of the address-ordered list.
    pub fn region_at(&self, i: usize) -> (r: ListNode)
        requires
            i < self@.len(),
        ensures
            r == self@[i as int],
    {
        self.regions[i]
    }

    /// The total number of free bytes on the list.
    pub fn free_byte_count(&self) -> (n: usize)
        requires
            self.wf(),
        ensures
            n == self.free_bytes(),
    {
        let mut total: usize = 0;
        let mut i: usize = 0;
        while i < self.regions.len()
            invariant
                0 <= i <= self@.len(),
                regions_wf(self@),
                total == total_free(self@.subrange(0, i as int)),
                total <= usize::MAX,
            decreases self@.len() - i,
        {
            proof {
                assert(self@.subrange(0, i + 1) =~= self@.subrange(0, i as int).push(
                    self@[i as int],
                ));
                lemma_total_free_push(self@.subrange(0, i as int), self@[i as int]);
                lemma_prefix_wf(self@, i + 1);
                lemma_total_free_bounded(self@.subrange(0, i + 1));
                assert(self@.subrange(0, i + 1).last() == self@[i as int]);
            }
            total = total + self.regions[i].size;
            i = i + 1;
        }
        proof {
            assert(self@.subrange(0, self@.len() as int) =~= self@);
        }
        total
    }

    /// Coalesce the free list in one left-to-right pass: whenever a region
    /// ends exactly where its successor starts, absorb the successor and
    /// re-check the extended region against its new successor, so merges
    /// cascade across any run of adjacent regions.
    #[verifier::rlimit(30)]
    #[verifier::spinoff_prover]
    pub fn merge_region(&mut self)
        requires
            old(self).wf(),
        ensures
            final(self).wf(),
            coalesced(final(self)@),
            final(self).free_bytes() == old(self).free_bytes(),
            forall|a: int| covers(final(self)@, a) <==> covers(old(self)@, a),
    {
        let ghost orig = self@;
        proof {
            lemma_same_coverage_refl(orig);
        }
        let mut idx: usize = 0;
        while idx < self.regions.len() && idx + 1 < self.regions.len()
            invariant
                orig == old(self)@,
                regions_wf(self@),
                0 <= idx <= self@.len(),
                total_free(self@) == total_free(orig),
                same_coverage(self@, orig),
                forall|j: int|
                    0 <= j < idx && j + 1 < self@.len() ==> (#[trigger] self@[j]).end() < self@[j
                        + 1].start,
            decreases self@.len() - idx,
        {
            let ghost s = self@;
            let a = self.regions[idx];
            let b = self.regions[idx + 1];
            if a.start + a.size == b.start {
                proof {
                    lemma_merge_loop_step(orig, s, idx as int);
                }
                let merged = ListNode::new(a.start, a.size + b.size);
                self.regions.remove(idx + 1);
                self.regions[idx] = merged;
            } else {
                proof {
                    lemma_skip_loop_step(s, idx as int);
                }
                idx = idx + 1;
            }
        }
        proof {
            reveal(same_coverage);
        }
    }

    /// Allocate a block: pad the request so the block can later host a node
    /// header, take the first region of the list it fits in (first fit, so
    /// low addresses are favoured), carve the block from that region's
    /// (aligned) start, and return any leftover tail to the list. `None`
    /// exactly when no region satisfies the padded request.
    pub fn allocate(&mut self, size: usize, align: usize) -> (r: Option<usize>)
        requires
            old(self).wf(),
            valid_request(size as int, align as int),
        ensures
            final(self).wf(),
            ll_alloc_result(old(self)@, size as int, align as int) matches Some(p) ==> r == Some(
                (p as usize),
            ),
            ll_alloc_result(old(self)@, size as int, align as int) is None ==> r is None,
            ll_alloc_result(old(self)@, size as int, align as int) matches Some(p) ==> 0 <= p
                && p + size_align_spec(size as int, align as int).0 <= usize::MAX && p
                % size_align_spec(size as int, align as int).1 == 0,
            final(self).free_bytes() == old(self).free_bytes() - ll_alloc_consumed(
                old(self)@,
                size as int,
                align as int,
            ),
            ({
                let req = size_align_spec(size as int, align as int);
                match first_fit(old(self)@, req.0, req.1) {
                    Option::None => {
                        &&& r is None
                        &&& final(self)@ == old(self)@
                    },
                    Option::Some(jp) => {
                        let region = old(self)@[jp.0];
                        let p = jp.1;
                        &&& r == Some((p as usize))
                        &&& p % align as int == 0
                        &&& region.start <= p
                        &&& p + req.0 <= region.end()
                        &&& final(self).free_bytes() == old(self).free_bytes() - req.0 - (p
                            - region.start)
                        &&& (forall|a: int|
                            covers(final(self)@, a) <==> covers(old(self)@, a) && !(region.start
                                <= a < p + req.0))
                    },
                }
            }),
    {
        let (psize, palign) = Self::size_align(size, align);
        let ghost s0 = self@;
        match self.find_region(psize, palign) {
            Some((region, alloc_start)) => {
                proof {
                    lemma_first_fit_some(s0, psize as int, palign as int);
                    lemma_align_up(region.start as int, palign as int);
                    lemma_alignment_facts(size as int, align as int, alloc_start as int);
                }
                let alloc_end = alloc_start + psize;
                let region_end = region.end_addr();
                let excess_size = region_end - alloc_end;
                let ghost mid = self@;
                let ghost j = (first_fit(s0, psize as int, palign as int)->Some_0).0;
                if excess_size > 0 {
                    proof {
                        lemma_regions_pairwise_disjoint(s0);
                        s0.remove_ensures(j);
                        assert forall|i: int|
                            0 <= i < mid.len() implies alloc_end + excess_size <= (
                        #[trigger] mid[i]).start || mid[i].end() <= alloc_end by {
                            if i < j {
                                assert(mid[i] == s0[i]);
                                assert(s0[i].end() <= s0[j].start);
                            } else {
                                assert(mid[i] == s0[i + 1]);
                                assert(s0[j].end() <= s0[i + 1].start);
                            }
                        }
                    }
                    self.add_free_region(alloc_end, excess_size);
                    proof {
                        assert forall|a: int|
                            covers(self@, a) <==> covers(s0, a) && !(region.start <= a < alloc_end
                        + 0) by {
                            assert(covers(self@, a) <==> covers(mid, a) || (alloc_end <= a
                                < alloc_end + excess_size));
                            assert(covers(mid, a) <==> covers(s0, a) && !(region.start <= a
                                < region.end()));
                        }
                    }
                }
                Some(alloc_start)
            },
            None => None,
        }
    }

    /// Free the block at `ptr` that was allocated with the given size and
    /// alignment: re-derive the padded block size, splice the span back into
    /// the list, and coalesce it with any adjacent free neighbours.
    pub fn deallocate(&mut self, ptr: usize, size: usize, align: usize)
        requires
            old(self).wf(),
            valid_request(size as int, align as int),
            ptr as int % NODE_ALIGN as int == 0,
            ptr + size_align_spec(size as int, align as int).0 <= usize::MAX,
            forall|i: int|
                0 <= i < old(self)@.len() ==> ptr + size_align_spec(size as int, align as int).0
                    <= (#[trigger] old(self)@[i]).start || old(self)@[i].end() <= ptr,
        ensures
            final(self).wf(),
            coalesced(final(self)@),
            final(self).free_bytes() == old(self).free_bytes() + size_align_spec(
                size as int,
                align as int,
            ).0,
            forall|a: int|
                covers(final(self)@, a) <==> covers(old(self)@, a) || (ptr <= a < ptr
                    + size_align_spec(size as int, align as int).0),
    {
        let (psize, _palign) = Self::size_align(size, align);
        self.add_free_region(ptr, psize);
        self.merge_region();
    }

    /// Fast but fragmenting alternate mode of [`Self::deallocate`]: give the
    /// block back without the coalescing pass. The span is spliced into the
    /// list in address order, but adjacent free regions stay separate until
    /// the next [`Self::merge_region`] call — under sustained churn this
    /// fragments the list, so coalescing on every free is the default.
    pub fn deallocate_no_coalesce(&mut self, ptr: usize, size: usize, align: usize)
        requires
            old(self).wf(),
            valid_request(size as int, align as int),
            ptr as int % NODE_ALIGN as int == 0,
            ptr + size_align_spec(size as int, align as int).0 <= usize::MAX,
            forall|i: int|
                0 <= i < old(self)@.len() ==> ptr + size_align_spec(size as int, align as int).0
                    <= (#[trigger] old(self)@[i]).start || old(self)@[i].end() <= ptr,
        ensures
            final(self).wf(),
            final(self)@ == old(self)@.insert(
                insert_position(old(self)@, ptr as int),
                (ListNode { start: ptr, size: size_align_spec(size as int, align as int).0 as usize }),
            ),
            final(self).free_bytes() == old(self).free_bytes() + size_align_spec(
                size as int,
                align as int,
            ).0,
            forall|a: int|
                covers(final(self)@, a) <==> covers(old(self)@, a) || (ptr <= a < ptr
                    + size_align_spec(size as int, align as int).0),
    {
        let (psize, _palign) = Self::size_align(size, align);
        self.add_free_region(ptr, psize);
    }
}

/// A span none of whose bytes is free is disjoint from every free region:
/// the bridge from the pointwise coverage contracts of `allocate` and
/// `deallocate` to the per-region disjointness their callers must show when
/// freeing a block that is currently live.
pub proof fn lemma_uncovered_span_disjoint(s: Seq<ListNode>, lo: int, size: int)
    requires
        regions_wf(s),
        0 < size,
        forall|a: int| lo <= a < lo + size ==> !covers(s, a),
    ensures
        forall|i: int|
            0 <= i < s.len() ==> lo + size <= (#[trigger] s[i]).start || s[i].end() <= lo,
{
    assert forall|i: int|
        0 <= i < s.len() implies lo + size <= (#[trigger] s[i]).start || s[i].end() <= lo by {
        if !(lo + size <= s[i].start) && !(s[i].end() <= lo) {
            let a = if lo > s[i].start {
                lo
            } else {
                s[i].start as int
            };
            assert(s[i].start <= a < s[i].end());
            assert(covers(s, a));
            assert(lo <= a < lo + size);
        }
    }
}

/// Conservation of bytes for the free-list allocator: as long as the
/// requested alignment does not exceed the node alignment (so no front
/// padding is swallowed), a successful allocation consumes exactly the padded
/// block size from the free total — the same amount a matching deallocation
/// later returns. Free bytes plus live padded blocks therefore always add up
/// to the arena size. (A request with a larger alignment may additionally
/// consume the padding in front of its block; that padding is not returned.)
pub proof fn lemma_alloc_consumed_exact(s: Seq<ListNode>, size: int, align: int)
    requires
        regions_wf(s),
        valid_request(size, align),
        align <= NODE_ALIGN,
    ensures
        ll_alloc_consumed(s, size, align) == if first_fit(
            s,
            size_align_spec(size, align).0,
            size_align_spec(size, align).1,
        ) is Some {
            size_align_spec(size, align).0
        } else {
            0
        },
{
    let req = size_align_spec(size, align);
    if first_fit(s, req.0, req.1) is Some {
        lemma_first_fit_some(s, req.0, req.1);
        let jp = first_fit(s, req.0, req.1)->Some_0;
        assert(node_wf(s[jp.0]));
        assert(jp.1 == spec_align_up(s[jp.0].start as int, NODE_ALIGN as int));
        assert(jp.1 == s[jp.0].start);
    }
}

/// Full coalescing restores contiguous space: a well-formed, fully coalesced
/// free list whose free addresses are exactly the interval
/// `[start, start + size)` consists of exactly one region covering it. In
/// particular, once every allocated block of an arena has been freed again,
/// the list is back to the single region it started from.
pub proof fn lemma_coalesced_interval(s: Seq<ListNode>, start: int, size: int)
    requires
        regions_wf(s),
        coalesced(s),
        0 < size,
        forall|a: int| covers(s, a) <==> (start <= a < start + size),
    ensures
        s.len() == 1,
        s[0].start == start,
        s[0].size == size,
{
    // Every region's first and last byte are free, so all regions lie inside
    // the interval.
    assert forall|k: int| 0 <= k < s.len() implies start <= (#[trigger] s[k]).start && s[k].end()
        <= start + size by {
        assert(covers(s, s[k].start as int));
        assert(covers(s, s[k].end() - 1));
    }
    // The interval's first byte is free, and only the first region can hold
    // it, so the first region starts exactly at `start`.
    assert(covers(s, start));
    let i = choose|i: int| 0 <= i < s.len() && (#[trigger] s[i]).start <= start < s[i].end();
    if i > 0 {
        lemma_ordered_pair(s, 0, i);
        assert(false);
    }
    assert(s[0].start == start);
    // A second region would leave the first region's end address free but
    // covered by no region: regions before it end too early, regions after
    // it start too late.
    if s.len() > 1 {
        let g = s[0].end();
        assert(s[1].start <= s[1].end() - 1);
        assert(g < s[1].start);
        assert(covers(s, g));
        let k = choose|k: int| 0 <= k < s.len() && (#[trigger] s[k]).start <= g < s[k].end();
        if k > 1 {
            lemma_ordered_pair(s, 1, k);
        }
        assert(false);
    }
    // The interval's last byte is free, so the single region reaches the
    // interval's end.
    assert(covers(s, start + size - 1));
}

/// Alignment bookkeeping for a padded request carved at address `p`: the
/// block's start and end are aligned for a node header, and the start also
/// satisfies the caller's alignment.
proof fn lemma_alignment_facts(size: int, align: int, p: int)
    requires
        valid_request(size, align),
        0 <= p,
        p % size_align_spec(size, align).1 == 0,
    ensures
        p % NODE_ALIGN as int == 0,
        p % align == 0,
        size_align_spec(size, align).0 % NODE_ALIGN as int == 0,
        (p + size_align_spec(size, align).0) % NODE_ALIGN as int == 0,
{
    let req = size_align_spec(size, align);
    let palign = req.1;
    reveal_with_fuel(vstd::arithmetic::power2::is_pow2, 5);
    assert(vstd::arithmetic::power2::is_pow2(NODE_ALIGN as int));
    if align < NODE_ALIGN {
        crate::allocator::lemma_pow2_le_divides(align, NODE_ALIGN as int);
        crate::allocator::lemma_mod_trans(p, NODE_ALIGN as int, align);
    } else {
        crate::allocator::lemma_pow2_le_divides(NODE_ALIGN as int, palign);
        crate::allocator::lemma_mod_trans(p, palign, NODE_ALIGN as int);
    }
    let padded = spec_align_up(size, palign);
    crate::allocator::lemma_align_up(size, palign);
    if padded < NODE_SIZE {
        assert(req.0 == NODE_SIZE);
        assert(NODE_SIZE as int % NODE_ALIGN as int == 0);
    } else {
        if align < NODE_ALIGN {
        } else {
            crate::allocator::lemma_mod_trans(req.0, palign, NODE_ALIGN as int);
        }
    }
    crate::allocator::lemma_mod_add_zero(p, req.0, NODE_ALIGN as int);
}

} // verus!


