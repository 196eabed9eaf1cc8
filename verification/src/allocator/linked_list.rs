//! Free-list allocator: free regions of the heap window are tracked as an
//! explicit list of address ranges, searched first-fit, split on
//! allocation, and never coalesced.
//!
//! In the running kernel each free region physically hosts a small header
//! (its size and a link) in its own first bytes, so every tracked region
//! must be large enough and aligned enough to hold one; requests are padded
//! accordingly, and the same padding is applied on deallocation so both
//! sides agree on block boundaries.  Newly freed regions always go to the
//! head of the list, so the search order is most-recently-freed first, not
//! address order.

use crate::allocator::{
    align_up, align_up_checked, is_power_of_two, lemma_align_up, lemma_mod_add_zero,
    lemma_mod_transitive, lemma_power_of_two_divides, lemma_power_of_two_pos, spec_align_up,
};
use vstd::prelude::*;

verus! {

/// Size in bytes of the in-memory header a free region must be able to
/// host; no tracked region may be smaller.
pub const NODE_SIZE: usize = 16;

/// Alignment every free region's start address must satisfy.
pub const NODE_ALIGN: usize = 8;

/// One free region: `size` bytes starting at `addr`.
#[derive(Debug, Clone, Copy, PartialEq, Eq, Structural)]
pub struct Node {
    pub addr: usize,
    pub size: usize,
}

impl Node {
    /// One past the last byte of the region.
    pub open spec fn spec_end(&self) -> int {
        self.addr + self.size
    }

    /// A region of `size` bytes starting at `addr`.
    pub fn new(addr: usize, size: usize) -> (r: Self)
        ensures
            r.addr == addr,
            r.size == size,
    {
        Node { addr, size }
    }

    /// First byte of the region.
    pub fn start_addr(&self) -> (r: usize)
        ensures
            r == self.addr,
    {
        self.addr
    }

    /// One past the last byte of the region.
    pub fn end_addr(&self) -> (r: usize)
        requires
            self.addr + self.size <= usize::MAX,
        ensures
            r as int == self.spec_end(),
    {
        self.addr + self.size
    }
}

/// The addresses covered by `size` bytes starting at `addr`.
pub open spec fn region_set(addr: int, size: int) -> Set<int> {
    Set::new(|p: int| addr <= p < addr + size)
}

/// All addresses covered by some region in `list`.
pub open spec fn free_bytes(list: Seq<Node>) -> Set<int>
    decreases list.len(),
{
    if list.len() == 0 {
        Set::empty()
    } else {
        region_set(list[0].addr as int, list[0].size as int).union(free_bytes(list.drop_first()))
    }
}

/// A region fit to stand in the free list: big enough and aligned enough
/// to host a header, and not wrapping the address space.
pub open spec fn valid_node(n: Node) -> bool {
    &&& n.size >= NODE_SIZE
    &&& n.addr as int % NODE_ALIGN as int == 0
    &&& n.addr + n.size <= usize::MAX
}

/// The two regions share no address.
pub open spec fn nodes_disjoint(a: Node, b: Node) -> bool {
    a.addr + a.size <= b.addr || b.addr + b.size <= a.addr
}

/// Every tracked region is a valid node and no two overlap.
pub open spec fn wf_regions(list: Seq<Node>) -> bool {
    &&& forall|i: int| 0 <= i < list.len() ==> valid_node(#[trigger] list[i])
    &&& forall|i: int, j: int|
        0 <= i < j < list.len() ==> nodes_disjoint(#[trigger] list[i], #[trigger] list[j])
}

/// The alignment actually used for a request: at least the header's.
pub open spec fn adj_align(align: int) -> int {
    if align < NODE_ALIGN { NODE_ALIGN as int } else { align }
}

/// The size actually carved out for a request: at least a header, rounded
/// up to the adjusted alignment, so a freed block can host a header again.
pub open spec fn adj_size(size: int, align: int) -> int {
    spec_align_up(if size < NODE_SIZE { NODE_SIZE as int } else { size }, adj_align(align))
}

/// Whether region `n` can serve an adjusted request: the aligned block must
/// fit, and any leftover tail must be zero or big enough to host a header
/// of its own — a smaller leftover could never be tracked and would be
/// lost, so such a fit is rejected.
pub open spec fn region_fits(n: Node, size: int, align: int) -> bool {
    let start = spec_align_up(n.addr as int, align);
    let leftover = n.addr + n.size - (start + size);
    &&& start + size <= n.addr + n.size
    &&& (leftover == 0 || leftover >= NODE_SIZE)
}

/// Index of the first region at or after position `k` that fits the
/// adjusted request, or `list.len()` if none does.
pub open spec fn first_fit_from(list: Seq<Node>, size: int, align: int, k: int) -> int
    decreases list.len() - k,
{
    if k < 0 || k >= list.len() {
        list.len() as int
    } else if region_fits(list[k], size, align) {
        k
    } else {
        first_fit_from(list, size, align, k + 1)
    }
}

/// Index of the first region in list order that fits the adjusted request,
/// or `list.len()` if none does.
pub open spec fn first_fit(list: Seq<Node>, size: int, align: int) -> int {
    first_fit_from(list, size, align, 0)
}

/// The address a request for `size` bytes at alignment `align` is served
/// at, or `None` when no region fits.
pub open spec fn spec_alloc_result(list: Seq<Node>, size: int, align: int) -> Option<int> {
    let sz = adj_size(size, align);
    let al = adj_align(align);
    let i = first_fit(list, sz, al);
    if i == list.len() {
        None
    } else {
        Some(spec_align_up(list[i].addr as int, al))
    }
}

/// The free list after serving that request: the chosen region is removed
/// and any leftover tail becomes a fresh region at the head of the list.
/// A failed request leaves the list unchanged.
pub open spec fn spec_alloc_regions(list: Seq<Node>, size: int, align: int) -> Seq<Node> {
    let sz = adj_size(size, align);
    let al = adj_align(align);
    let i = first_fit(list, sz, al);
    if i == list.len() {
        list
    } else {
        let n = list[i];
        let start = spec_align_up(n.addr as int, al);
        let leftover = n.addr + n.size - (start + sz);
        if leftover > 0 {
            seq![(Node { addr: (start + sz) as usize, size: leftover as usize })] + list.remove(i)
        } else {
            list.remove(i)
        }
    }
}

/// The free list after freeing the block at `addr` that was allocated with
/// layout `(size, align)`: the block, re-padded by the same layout
/// adjustment, goes to the head of the list.
pub open spec fn spec_dealloc_regions(list: Seq<Node>, addr: int, size: int, align: int) -> Seq<
    Node,
> {
    seq![(Node { addr: addr as usize, size: adj_size(size, align) as usize })] + list
}

/// The adjusted alignment is a power of two no smaller than the request's
/// alignment or the header's, and a multiple of both.
pub proof fn lemma_adj_align(align: int)
    requires
        is_power_of_two(align),
    ensures
        is_power_of_two(adj_align(align)),
        align <= adj_align(align),
        NODE_ALIGN <= adj_align(align),
        adj_align(align) % align == 0,
        adj_align(align) % (NODE_ALIGN as int) == 0,
{
    assert(is_power_of_two(NODE_ALIGN as int)) by {
        reveal_with_fuel(is_power_of_two, 4);
    }
    lemma_power_of_two_pos(align);
    if align < NODE_ALIGN {
        lemma_power_of_two_divides(align, NODE_ALIGN as int);
        lemma_power_of_two_divides(NODE_ALIGN as int, NODE_ALIGN as int);
    } else {
        lemma_power_of_two_divides(NODE_ALIGN as int, align);
        lemma_power_of_two_divides(align, align);
    }
}

/// The adjusted size is at least the request, at least a header, and a
/// multiple of the adjusted alignment.
pub proof fn lemma_adj_size(size: int, align: int)
    requires
        size >= 0,
        is_power_of_two(align),
    ensures
        adj_size(size, align) >= size,
        adj_size(size, align) >= NODE_SIZE,
        adj_size(size, align) % adj_align(align) == 0,
{
    lemma_adj_align(align);
    lemma_power_of_two_pos(adj_align(align));
    let base = if size < NODE_SIZE { NODE_SIZE as int } else { size };
    lemma_align_up(base, adj_align(align));
}

/// A region smaller than the adjusted request can never serve it.
pub proof fn lemma_region_unfit_small(n: Node, size: int, align: int)
    requires
        align >= 1,
        size > n.size,
    ensures
        !region_fits(n, size, align),
{
    lemma_align_up(n.addr as int, align);
}

/// What the first-fit index means: it stays within bounds, lands on a
/// fitting region when there is one, and everything before it is unfit.
pub proof fn lemma_first_fit_props(list: Seq<Node>, size: int, align: int, k: int)
    requires
        0 <= k <= list.len(),
    ensures
        k <= first_fit_from(list, size, align, k) <= list.len(),
        first_fit_from(list, size, align, k) < list.len() ==> region_fits(
            list[first_fit_from(list, size, align, k)],
            size,
            align,
        ),
        forall|j: int|
            k <= j < first_fit_from(list, size, align, k) ==> !region_fits(
                #[trigger] list[j],
                size,
                align,
            ),
    decreases list.len() - k,
{
    if k < list.len() && !region_fits(list[k], size, align) {
        lemma_first_fit_props(list, size, align, k + 1);
    }
}

/// Each region's addresses are among the list's free addresses.
pub proof fn lemma_free_bytes_node(list: Seq<Node>, i: int)
    requires
        0 <= i < list.len(),
    ensures
        region_set(list[i].addr as int, list[i].size as int).subset_of(free_bytes(list)),
    decreases i,
{
    if i > 0 {
        lemma_free_bytes_node(list.drop_first(), i - 1);
        assert(list.drop_first()[i - 1] == list[i]);
        assert forall|p: int|
            region_set(list[i].addr as int, list[i].size as int).contains(p) implies free_bytes(
            list,
        ).contains(p) by {
            assert(free_bytes(list.drop_first()).contains(p));
        }
    }
}

/// Removing a region only shrinks the set of free addresses.
pub proof fn lemma_free_bytes_remove(list: Seq<Node>, i: int)
    requires
        0 <= i < list.len(),
    ensures
        free_bytes(list.remove(i)).subset_of(free_bytes(list)),
    decreases i,
{
    if i == 0 {
        assert(list.remove(0) =~= list.drop_first());
    } else {
        lemma_free_bytes_remove(list.drop_first(), i - 1);
        assert(list.remove(i).drop_first() =~= list.drop_first().remove(i - 1));
        assert(list.remove(i)[0] == list[0]);
        assert forall|p: int| free_bytes(list.remove(i)).contains(p) implies free_bytes(
            list,
        ).contains(p) by {
            if region_set(list[0].addr as int, list[0].size as int).contains(p) {
            } else {
                assert(free_bytes(list.remove(i).drop_first()).contains(p));
                assert(free_bytes(list.drop_first()).contains(p));
            }
        }
    }
}

/// A region disjoint from every region of a list shares no address with it.
pub proof fn lemma_region_all_disjoint(n: Node, list: Seq<Node>)
    requires
        forall|j: int| 0 <= j < list.len() ==> nodes_disjoint(n, #[trigger] list[j]),
    ensures
        free_bytes(list).disjoint(region_set(n.addr as int, n.size as int)),
    decreases list.len(),
{
    if list.len() > 0 {
        assert forall|j: int| 0 <= j < list.drop_first().len() implies nodes_disjoint(
            n,
            #[trigger] list.drop_first()[j],
        ) by {
            assert(list.drop_first()[j] == list[j + 1]);
        }
        lemma_region_all_disjoint(n, list.drop_first());
        assert(nodes_disjoint(n, list[0]));
        assert forall|p: int| free_bytes(list).contains(p) implies !region_set(
            n.addr as int,
            n.size as int,
        ).contains(p) by {
            if free_bytes(list.drop_first()).contains(p) {
            }
        }
    }
}

/// In a well-formed list, what remains after removing a region is disjoint
/// from that region.
pub proof fn lemma_free_bytes_remove_disjoint(list: Seq<Node>, i: int)
    requires
        wf_regions(list),
        0 <= i < list.len(),
    ensures
        free_bytes(list.remove(i)).disjoint(region_set(list[i].addr as int, list[i].size as int)),
{
    list.remove_ensures(i);
    assert forall|j: int| 0 <= j < list.remove(i).len() implies nodes_disjoint(
        list[i],
        #[trigger] list.remove(i)[j],
    ) by {
        if j < i {
            assert(list.remove(i)[j] == list[j]);
            assert(nodes_disjoint(list[j], list[i]));
        } else {
            assert(list.remove(i)[j] == list[j + 1]);
            assert(nodes_disjoint(list[i], list[j + 1]));
        }
    }
    lemma_region_all_disjoint(list[i], list.remove(i));
}

/// Removing a region keeps the list well-formed.
pub proof fn lemma_wf_remove(list: Seq<Node>, i: int)
    requires
        wf_regions(list),
        0 <= i < list.len(),
    ensures
        wf_regions(list.remove(i)),
{
    list.remove_ensures(i);
    assert forall|a: int, b: int| 0 <= a < b < list.remove(i).len() implies nodes_disjoint(
        #[trigger] list.remove(i)[a],
        #[trigger] list.remove(i)[b],
    ) by {
        let a0 = if a < i {
            a
        } else {
            a + 1
        };
        let b0 = if b < i {
            b
        } else {
            b + 1
        };
        assert(list.remove(i)[a] == list[a0]);
        assert(list.remove(i)[b] == list[b0]);
        assert(nodes_disjoint(list[a0], list[b0]));
    }
}

/// Prepending a region adds exactly its addresses to the free set.
pub proof fn lemma_free_bytes_prepend(n: Node, list: Seq<Node>)
    ensures
        free_bytes(seq![n] + list) == region_set(n.addr as int, n.size as int).union(
            free_bytes(list),
        ),
{
    let full = seq![n] + list;
    assert(full.len() == list.len() + 1);
    assert(full[0] == n);
    assert(full.drop_first() =~= list);
}

/// What one allocation step does to the free addresses: it keeps the list
/// well-formed; a failed request changes nothing; a served block is carved
/// out of the free addresses, which only shrink and no longer touch it.
pub proof fn lemma_alloc_step(list: Seq<Node>, size: int, align: int)
    requires
        wf_regions(list),
        size >= 0,
        is_power_of_two(align),
    ensures
        wf_regions(spec_alloc_regions(list, size, align)),
        spec_alloc_result(list, size, align) is None ==> spec_alloc_regions(list, size, align)
            == list,
        spec_alloc_result(list, size, align) matches Some(a) ==> ({
            let sz = adj_size(size, align);
            let new = spec_alloc_regions(list, size, align);
            &&& a % align == 0
            &&& a + sz <= usize::MAX
            &&& region_set(a, sz).subset_of(free_bytes(list))
            &&& free_bytes(new).subset_of(free_bytes(list))
            &&& free_bytes(new).disjoint(region_set(a, sz))
        }),
{
    let sz = adj_size(size, align);
    let al = adj_align(align);
    lemma_adj_align(align);
    lemma_adj_size(size, align);
    lemma_power_of_two_pos(align);
    lemma_power_of_two_pos(al);
    lemma_first_fit_props(list, sz, al, 0);
    let i = first_fit(list, sz, al);
    if i < list.len() {
        let n = list[i];
        let start = spec_align_up(n.addr as int, al);
        let leftover = n.addr + n.size - (start + sz);
        let rest = list.remove(i);
        let new = spec_alloc_regions(list, size, align);
        assert(valid_node(n));
        assert(region_fits(n, sz, al));
        lemma_align_up(n.addr as int, al);
        lemma_mod_transitive(start, al, align);
        list.remove_ensures(i);
        lemma_wf_remove(list, i);
        lemma_free_bytes_node(list, i);
        lemma_free_bytes_remove(list, i);
        lemma_free_bytes_remove_disjoint(list, i);
        let n_region = region_set(n.addr as int, n.size as int);
        assert(region_set(start, sz).subset_of(free_bytes(list))) by {
            assert forall|p: int| region_set(start, sz).contains(p) implies free_bytes(
                list,
            ).contains(p) by {
                assert(n_region.contains(p));
            }
        }
        if leftover > 0 {
            let m = Node { addr: (start + sz) as usize, size: leftover as usize };
            assert(m.addr == start + sz);
            assert(m.size == leftover);
            assert(valid_node(m)) by {
                lemma_mod_add_zero(start, sz, al);
                lemma_mod_transitive(start + sz, al, NODE_ALIGN as int);
            }
            assert forall|j: int| 0 <= j < rest.len() implies nodes_disjoint(
                m,
                #[trigger] rest[j],
            ) by {
                let j0 = if j < i {
                    j
                } else {
                    j + 1
                };
                assert(rest[j] == list[j0]);
                assert(nodes_disjoint(n, list[j0]) || nodes_disjoint(list[j0], n));
            }
            assert(new == seq![m] + rest);
            assert forall|a: int, b: int| 0 <= a < b < new.len() implies nodes_disjoint(
                #[trigger] new[a],
                #[trigger] new[b],
            ) by {
                if a == 0 {
                    assert(new[b] == rest[b - 1]);
                } else {
                    assert(new[a] == rest[a - 1]);
                    assert(new[b] == rest[b - 1]);
                }
            }
            assert forall|a: int| 0 <= a < new.len() implies valid_node(#[trigger] new[a]) by {
                if a > 0 {
                    assert(new[a] == rest[a - 1]);
                }
            }
            lemma_free_bytes_prepend(m, rest);
            assert(free_bytes(new).subset_of(free_bytes(list))) by {
                assert forall|p: int| free_bytes(new).contains(p) implies free_bytes(
                    list,
                ).contains(p) by {
                    if region_set(m.addr as int, m.size as int).contains(p) {
                        assert(n_region.contains(p));
                    } else {
                        assert(free_bytes(rest).contains(p));
                    }
                }
            }
            assert(free_bytes(new).disjoint(region_set(start, sz))) by {
                assert forall|p: int| free_bytes(new).contains(p) implies !region_set(
                    start,
                    sz,
                ).contains(p) by {
                    if region_set(m.addr as int, m.size as int).contains(p) {
                    } else {
                        assert(free_bytes(rest).contains(p));
                        assert(!n_region.contains(p));
                    }
                }
            }
        } else {
            assert(new == rest);
            assert(free_bytes(new).disjoint(region_set(start, sz))) by {
                assert forall|p: int| free_bytes(new).contains(p) implies !region_set(
                    start,
                    sz,
                ).contains(p) by {
                    assert(!n_region.contains(p));
                }
            }
        }
    }
}

/// State of a free-list allocator: the currently free regions, most
/// recently freed first.
pub struct LinkedListAllocInner {
    pub regions: Vec<Node>,
}

impl LinkedListAllocInner {
    /// Every tracked region can host a header and no two overlap.
    pub open spec fn wf(&self) -> bool {
        wf_regions(self.regions@)
    }

    /// An allocator with no free memory at all.
    pub fn new() -> (r: Self)
        ensures
            r.regions@.len() == 0,
            r.wf(),
    {
        LinkedListAllocInner { regions: Vec::new() }
    }

    /// Adjust a requested layout so that the block handed out can later
    /// host a header when it is freed.  Applied identically on allocation
    /// and deallocation, so both sides agree on block boundaries.
    pub fn size_align(size: usize, align: usize) -> (r: (usize, usize))
        requires
            is_power_of_two(align as int),
            adj_size(size as int, align as int) <= usize::MAX,
        ensures
            r.0 as int == adj_size(size as int, align as int),
            r.1 as int == adj_align(align as int),
    {
        proof {
            lemma_adj_align(align as int);
        }
        let al = if align < NODE_ALIGN {
            NODE_ALIGN
        } else {
            align
        };
        let base = if size < NODE_SIZE {
            NODE_SIZE
        } else {
            size
        };
        let sz = align_up(base, al);
        (sz, al)
    }

    /// Track `[addr, addr + size)` as free, at the head of the list.  The
    /// region must be able to host a header and must not overlap anything
    /// already tracked.
    pub fn add_free_region(&mut self, addr: usize, size: usize)
        requires
            old(self).wf(),
            size >= NODE_SIZE,
            addr as int % NODE_ALIGN as int == 0,
            addr + size <= usize::MAX,
            forall|j: int|
                0 <= j < old(self).regions@.len() ==> nodes_disjoint(
                    (Node { addr, size }),
                    #[trigger] old(self).regions@[j],
                ),
        ensures
            final(self).regions@ == seq![(Node { addr, size })] + old(self).regions@,
            final(self).wf(),
    {
        self.regions.insert(0, Node::new(addr, size));
        proof {
            let node = Node { addr, size };
            let new_list = self.regions@;
            let old_list = old(self).regions@;
            assert(new_list =~= seq![node] + old_list);
            assert forall|i: int| 0 <= i < new_list.len() implies valid_node(
                #[trigger] new_list[i],
            ) by {
                if i > 0 {
                    assert(new_list[i] == old_list[i - 1]);
                }
            }
            assert forall|i: int, j: int| 0 <= i < j < new_list.len() implies nodes_disjoint(
                #[trigger] new_list[i],
                #[trigger] new_list[j],
            ) by {
                if i == 0 {
                    assert(new_list[j] == old_list[j - 1]);
                    assert(nodes_disjoint(node, old_list[j - 1]));
                } else {
                    assert(new_list[i] == old_list[i - 1]);
                    assert(new_list[j] == old_list[j - 1]);
                    assert(nodes_disjoint(old_list[i - 1], old_list[j - 1]));
                }
            }
        }
    }

    /// Adopt the heap window `[heap_start, heap_start + heap_size)` as one
    /// single free region.
    ///
    /// The caller must have backed the window with writable memory and must
    /// call this exactly once, before any allocation.  A window too small
    /// or too misaligned to host a header cannot be adopted at all; the
    /// kernel treats such a configuration as a fatal boot error.
    pub fn init(&mut self, heap_start: usize, heap_size: usize)
        requires
            old(self).regions@.len() == 0,
            heap_start >= 1,
            heap_start as int % NODE_ALIGN as int == 0,
            heap_size >= NODE_SIZE,
            heap_start + heap_size <= usize::MAX,
        ensures
            final(self).regions@ == seq![(Node { addr: heap_start, size: heap_size })],
            final(self).wf(),
    {
        proof {
            assert(old(self).wf());
        }
        self.add_free_region(heap_start, heap_size);
        proof {
            assert(self.regions@ =~= seq![(Node { addr: heap_start, size: heap_size })]);
        }
    }

    /// Try to carve an adjusted request out of one region: the block starts
    /// at the region's start rounded up to `align`, and the fit is rejected
    /// when the block does not fit or would strand a tail too small to
    /// host a header.
    pub fn alloc_from_region(region: &Node, size: usize, align: usize) -> (r: Result<usize, ()>)
        requires
            is_power_of_two(align as int),
            region.addr + region.size <= usize::MAX,
        ensures
            match r {
                Ok(start) => {
                    &&& region_fits(*region, size as int, align as int)
                    &&& start as int == spec_align_up(region.addr as int, align as int)
                },
                Err(_) => !region_fits(*region, size as int, align as int),
            },
    {
        proof {
            lemma_power_of_two_pos(align as int);
            lemma_align_up(region.addr as int, align as int);
        }
        let alloc_start = match align_up_checked(region.addr, align) {
            Some(a) => a,
            None => {
                return Err(());
            },
        };
        let alloc_end = match alloc_start.checked_add(size) {
            Some(e) => e,
            None => {
                return Err(());
            },
        };
        let region_end = region.end_addr();
        if alloc_end > region_end {
            return Err(());
        }
        let excess_size = region_end - alloc_end;
        if excess_size > 0 && excess_size < NODE_SIZE {
            return Err(());
        }
        Ok(alloc_start)
    }

    /// Walk the list in order and unlink the first region that fits the
    /// adjusted request, returning it with the block's start address.
    #[verifier::loop_isolation(false)]
    pub fn find_region(&mut self, size: usize, align: usize) -> (r: Option<(Node, usize)>)
        requires
            old(self).wf(),
            is_power_of_two(align as int),
        ensures
            final(self).wf(),
            match r {
                None => {
                    &&& first_fit(old(self).regions@, size as int, align as int) == old(
                        self,
                    ).regions@.len()
                    &&& final(self).regions@ == old(self).regions@
                },
                Some((node, start)) => ({
                    let i = first_fit(old(self).regions@, size as int, align as int);
                    &&& 0 <= i < old(self).regions@.len()
                    &&& node == old(self).regions@[i]
                    &&& region_fits(node, size as int, align as int)
                    &&& start as int == spec_align_up(node.addr as int, align as int)
                    &&& final(self).regions@ == old(self).regions@.remove(i)
                }),
            },
    {
        let mut idx: usize = 0;
        while idx < self.regions.len()
            invariant
                idx <= self.regions.len(),
                self.regions@ == old(self).regions@,
                first_fit(old(self).regions@, size as int, align as int) == first_fit_from(
                    old(self).regions@,
                    size as int,
                    align as int,
                    idx as int,
                ),
            decreases self.regions.len() - idx,
        {
            let region = self.regions[idx];
            match Self::alloc_from_region(&region, size, align) {
                Ok(start) => {
                    let node = self.regions.remove(idx);
                    proof {
                        old(self).regions@.remove_ensures(idx as int);
                        lemma_wf_remove(old(self).regions@, idx as int);
                    }
                    return Some((node, start));
                },
                Err(_) => {
                    idx = idx + 1;
                },
            }
        }
        None
    }

    /// Hand out a block for layout `(size, align)`, or report that no free
    /// region can serve it.  The request is padded by the layout
    /// adjustment, served first-fit in list order — most recently freed
    /// regions first — and any leftover tail of the chosen region is
    /// tracked again as free.  The memory is not zeroed.
    pub fn allocate(&mut self, size: usize, align: usize) -> (r: Option<usize>)
        requires
            old(self).wf(),
            is_power_of_two(align as int),
        ensures
            final(self).wf(),
            final(self).regions@ == spec_alloc_regions(
                old(self).regions@,
                size as int,
                align as int,
            ),
            match r {
                None => spec_alloc_result(old(self).regions@, size as int, align as int) is None,
                Some(addr) => ({
                    let sz = adj_size(size as int, align as int);
                    &&& spec_alloc_result(old(self).regions@, size as int, align as int) == Some(
                        addr as int,
                    )
                    &&& addr as int % align as int == 0
                    &&& addr + sz <= usize::MAX
                    &&& region_set(addr as int, sz).subset_of(free_bytes(old(self).regions@))
                    &&& free_bytes(final(self).regions@).subset_of(free_bytes(old(self).regions@))
                    &&& free_bytes(final(self).regions@).disjoint(region_set(addr as int, sz))
                }),
            },
    {
        let ghost l0 = self.regions@;
        let ghost szi = adj_size(size as int, align as int);
        let ghost ali = adj_align(align as int);
        proof {
            lemma_adj_align(align as int);
            lemma_adj_size(size as int, align as int);
            lemma_alloc_step(l0, size as int, align as int);
            lemma_first_fit_props(l0, szi, ali, 0);
        }
        let al = if align < NODE_ALIGN {
            NODE_ALIGN
        } else {
            align
        };
        let base = if size < NODE_SIZE {
            NODE_SIZE
        } else {
            size
        };
        let sz = match align_up_checked(base, al) {
            Some(s) => s,
            None => {
                // The padded size does not even fit in a usize, so no
                // region can serve it.
                proof {
                    let i = first_fit(l0, szi, ali);
                    if i < l0.len() {
                        lemma_region_unfit_small(l0[i], szi, ali);
                    }
                }
                return None;
            },
        };
        match self.find_region(sz, al) {
            Some((region, alloc_start)) => {
                let ghost i = first_fit(l0, szi, ali);
                proof {
                    assert(valid_node(region));
                    lemma_align_up(region.addr as int, al as int);
                }
                let alloc_end = alloc_start + sz;
                let region_end = region.end_addr();
                let excess_size = region_end - alloc_end;
                if excess_size > 0 {
                    proof {
                        lemma_mod_add_zero(alloc_start as int, sz as int, al as int);
                        lemma_mod_transitive(alloc_end as int, al as int, NODE_ALIGN as int);
                        l0.remove_ensures(i);
                        assert forall|j: int| 0 <= j < self.regions@.len() implies nodes_disjoint(
                            (Node { addr: alloc_end, size: excess_size }),
                            #[trigger] self.regions@[j],
                        ) by {
                            let j0 = if j < i {
                                j
                            } else {
                                j + 1
                            };
                            assert(self.regions@[j] == l0[j0]);
                            assert(nodes_disjoint(l0[i], l0[j0]) || nodes_disjoint(l0[j0], l0[i]));
                        }
                    }
                    self.add_free_region(alloc_end, excess_size);
                    proof {
                        assert(self.regions@ =~= spec_alloc_regions(l0, size as int, align as int));
                    }
                } else {
                    proof {
                        assert(self.regions@ =~= spec_alloc_regions(l0, size as int, align as int));
                    }
                }
                Some(alloc_start)
            },
            None => None,
        }
    }

    /// Return the block at `addr` that was allocated with layout `(size,
    /// align)`.  The same layout adjustment recovers the block's true
    /// extent, and the block goes to the head of the free list; physically
    /// adjacent free regions are deliberately never merged.  The caller
    /// must pass the layout used at allocation time, for a block it still
    /// owns: the block must lie outside every free region.
    pub fn deallocate(&mut self, addr: usize, size: usize, align: usize)
        requires
            old(self).wf(),
            is_power_of_two(align as int),
            addr as int % NODE_ALIGN as int == 0,
            addr + adj_size(size as int, align as int) <= usize::MAX,
            region_set(addr as int, adj_size(size as int, align as int)).disjoint(
                free_bytes(old(self).regions@),
            ),
        ensures
            final(self).wf(),
            final(self).regions@ == spec_dealloc_regions(
                old(self).regions@,
                addr as int,
                size as int,
                align as int,
            ),
    {
        proof {
            lemma_adj_size(size as int, align as int);
        }
        let (sz, _al) = Self::size_align(size, align);
        proof {
            let node = Node { addr, size: sz };
            assert forall|j: int| 0 <= j < self.regions@.len() implies nodes_disjoint(
                node,
                #[trigger] self.regions@[j],
            ) by {
                let other = self.regions@[j];
                lemma_free_bytes_node(self.regions@, j);
                if !(node.addr + node.size <= other.addr || other.addr + other.size
                    <= node.addr) {
                    // The two ranges would overlap: the later of the two
                    // start addresses lies in both, yet the block was
                    // required to lie outside every free region.
                    let p = if node.addr >= other.addr {
                        node.addr as int
                    } else {
                        other.addr as int
                    };
                    assert(region_set(addr as int, sz as int).contains(p));
                    assert(region_set(other.addr as int, other.size as int).contains(p));
                    assert(false);
                }
            }
        }
        self.add_free_region(addr, sz);
    }
}

/// The blocks handed out by a run of `allocate` calls against an initial
/// free list, as `(address, padded size)` pairs; failed requests hand out
/// nothing and change nothing.
pub open spec fn ll_blocks(list: Seq<Node>, reqs: Seq<(int, int)>) -> Seq<(int, int)>
    decreases reqs.len(),
{
    if reqs.len() == 0 {
        Seq::empty()
    } else {
        let size = reqs[0].0;
        let align = reqs[0].1;
        let rest = ll_blocks(spec_alloc_regions(list, size, align), reqs.drop_first());
        match spec_alloc_result(list, size, align) {
            Some(a) => seq![(a, adj_size(size, align))] + rest,
            None => rest,
        }
    }
}

/// No-overlap law: however many allocations a run of requests makes, and
/// with no frees in between, every block handed out is carved from the
/// initially free addresses and no two blocks share an address.
pub proof fn lemma_ll_no_overlap(list: Seq<Node>, reqs: Seq<(int, int)>)
    requires
        wf_regions(list),
        forall|k: int|
            0 <= k < reqs.len() ==> (#[trigger] reqs[k]).0 >= 0 && is_power_of_two(reqs[k].1),
    ensures
        forall|k: int|
            0 <= k < ll_blocks(list, reqs).len() ==> region_set(
                (#[trigger] ll_blocks(list, reqs)[k]).0,
                ll_blocks(list, reqs)[k].1,
            ).subset_of(free_bytes(list)),
        forall|i: int, j: int|
            0 <= i < j < ll_blocks(list, reqs).len() ==> region_set(
                (#[trigger] ll_blocks(list, reqs)[i]).0,
                ll_blocks(list, reqs)[i].1,
            ).disjoint(
                region_set((#[trigger] ll_blocks(list, reqs)[j]).0, ll_blocks(list, reqs)[j].1),
            ),
    decreases reqs.len(),
{
    if reqs.len() > 0 {
        let size = reqs[0].0;
        let align = reqs[0].1;
        lemma_alloc_step(list, size, align);
        let l1 = spec_alloc_regions(list, size, align);
        assert forall|k: int|
            0 <= k < reqs.drop_first().len() implies (#[trigger] reqs.drop_first()[k]).0 >= 0
            && is_power_of_two(reqs.drop_first()[k].1) by {
            assert(reqs.drop_first()[k] == reqs[k + 1]);
        }
        lemma_ll_no_overlap(l1, reqs.drop_first());
        let blocks = ll_blocks(list, reqs);
        let rest = ll_blocks(l1, reqs.drop_first());
        match spec_alloc_result(list, size, align) {
            Some(a) => {
                let sz = adj_size(size, align);
                assert(blocks == seq![(a, sz)] + rest);
                assert forall|k: int| 0 <= k < blocks.len() implies region_set(
                    (#[trigger] blocks[k]).0,
                    blocks[k].1,
                ).subset_of(free_bytes(list)) by {
                    if k > 0 {
                        assert(blocks[k] == rest[k - 1]);
                        let b = region_set(rest[k - 1].0, rest[k - 1].1);
                        assert(b.subset_of(free_bytes(l1)));
                        assert forall|p: int| b.contains(p) implies free_bytes(
                            list,
                        ).contains(p) by {
                            assert(free_bytes(l1).contains(p));
                        }
                    }
                }
                assert forall|i: int, j: int| 0 <= i < j < blocks.len() implies region_set(
                    (#[trigger] blocks[i]).0,
                    blocks[i].1,
                ).disjoint(region_set((#[trigger] blocks[j]).0, blocks[j].1)) by {
                    assert(blocks[j] == rest[j - 1]);
                    let bj = region_set(rest[j - 1].0, rest[j - 1].1);
                    assert(bj.subset_of(free_bytes(l1)));
                    if i == 0 {
                        // the later block sits in addresses still free after
                        // this step, which no longer touch this block
                        assert forall|p: int| region_set(a, sz).contains(p) implies !bj.contains(
                            p,
                        ) by {
                            if bj.contains(p) {
                                assert(free_bytes(l1).contains(p));
                            }
                        }
                    } else {
                        assert(blocks[i] == rest[i - 1]);
                        assert(region_set(rest[i - 1].0, rest[i - 1].1).disjoint(bj));
                    }
                }
            },
            None => {
                assert(blocks == rest);
                assert(l1 == list);
                assert forall|k: int| 0 <= k < blocks.len() implies region_set(
                    (#[trigger] blocks[k]).0,
                    blocks[k].1,
                ).subset_of(free_bytes(list)) by {
                    assert(region_set(rest[k].0, rest[k].1).subset_of(free_bytes(l1)));
                }
                assert forall|i: int, j: int| 0 <= i < j < blocks.len() implies region_set(
                    (#[trigger] blocks[i]).0,
                    blocks[i].1,
                ).disjoint(region_set((#[trigger] blocks[j]).0, blocks[j].1)) by {
                    assert(region_set(rest[i].0, rest[i].1).disjoint(
                        region_set(rest[j].0, rest[j].1),
                    ));
                }
            },
        }
    }
}

/// Reuse law: serve a request, free the block, and the very same request
/// is served again at the very same address, leaving the free list exactly
/// as after the first allocation — an alloc/free/alloc cycle consumes no
/// extra space.
pub proof fn lemma_ll_reuse(list: Seq<Node>, size: int, align: int, a: int)
    requires
        wf_regions(list),
        size >= 0,
        is_power_of_two(align),
        spec_alloc_result(list, size, align) == Some(a),
    ensures
        ({
            let l1 = spec_alloc_regions(list, size, align);
            let l2 = spec_dealloc_regions(l1, a, size, align);
            &&& spec_alloc_result(l2, size, align) == Some(a)
            &&& spec_alloc_regions(l2, size, align) == l1
        }),
{
    let sz = adj_size(size, align);
    let al = adj_align(align);
    lemma_adj_align(align);
    lemma_adj_size(size, align);
    lemma_power_of_two_pos(al);
    lemma_first_fit_props(list, sz, al, 0);
    let i = first_fit(list, sz, al);
    lemma_align_up(list[i].addr as int, al);
    lemma_alloc_step(list, size, align);
    let l1 = spec_alloc_regions(list, size, align);
    let l2 = spec_dealloc_regions(l1, a, size, align);
    let f = Node { addr: a as usize, size: sz as usize };
    assert(l2 == seq![f] + l1);
    assert(f.addr == a && f.size == sz);
    assert(spec_align_up(f.addr as int, al) == f.addr as int);
    assert(region_fits(f, sz, al));
    assert(first_fit(l2, sz, al) == 0);
    assert(spec_alloc_result(l2, size, align) == Some(a));
    assert(spec_alloc_regions(l2, size, align) =~= l1);
}

/// Exhaustion law: a request whose padded size exceeds every free region —
/// in particular one larger than the whole heap — always fails.
pub proof fn lemma_ll_exhaustion(list: Seq<Node>, size: int, align: int)
    requires
        wf_regions(list),
        size >= 0,
        is_power_of_two(align),
        forall|i: int| 0 <= i < list.len() ==> (#[trigger] list[i]).size < adj_size(size, align),
    ensures
        spec_alloc_result(list, size, align) is None,
{
    let sz = adj_size(size, align);
    let al = adj_align(align);
    lemma_adj_align(align);
    lemma_power_of_two_pos(al);
    lemma_first_fit_props(list, sz, al, 0);
    let i = first_fit(list, sz, al);
    if i < list.len() {
        lemma_region_unfit_small(list[i], sz, al);
    }
}

/// Full-capacity law: a fresh heap whose single free region matches the
/// padded request exactly serves it once, handing out the whole window at
/// its start address, and afterwards no request of any size succeeds.
pub proof fn lemma_ll_full_capacity(heap_start: int, heap_size: int, size: int, align: int)
    requires
        heap_start >= 1,
        heap_start % (NODE_ALIGN as int) == 0,
        heap_size >= NODE_SIZE,
        heap_start + heap_size <= usize::MAX,
        size >= 0,
        is_power_of_two(align),
        heap_start % adj_align(align) == 0,
        adj_size(size, align) == heap_size,
    ensures
        ({
            let l0 = seq![(Node { addr: heap_start as usize, size: heap_size as usize })];
            &&& spec_alloc_result(l0, size, align) == Some(heap_start)
            &&& spec_alloc_regions(l0, size, align).len() == 0
        }),
        forall|size2: int, align2: int|
            #[trigger] spec_alloc_result(Seq::<Node>::empty(), size2, align2) is None,
{
    let l0 = seq![(Node { addr: heap_start as usize, size: heap_size as usize })];
    let sz = adj_size(size, align);
    let al = adj_align(align);
    lemma_adj_align(align);
    lemma_power_of_two_pos(al);
    assert(l0[0].addr as int == heap_start);
    assert(spec_align_up(l0[0].addr as int, al) == heap_start);
    assert(region_fits(l0[0], sz, al));
    assert(first_fit(l0, sz, al) == 0);
    assert(spec_alloc_regions(l0, size, align) =~= l0.remove(0));
    assert(l0.remove(0).len() == 0);
    assert forall|size2: int, align2: int| #[trigger] spec_alloc_result(
        Seq::<Node>::empty(),
        size2,
        align2,
    ) is None by {
        let e = Seq::<Node>::empty();
        assert(first_fit(e, adj_size(size2, align2), adj_align(align2)) == 0);
    }
}

} // verus!
