//! Monotonic bump allocator: a single cursor moves forward through the heap
//! window, and the region is reclaimed in one step once every outstanding
//! allocation has been returned.
//!
//! The trade-off is deliberate: allocation and deallocation are O(1), but a
//! single long-lived allocation pins the whole arena, so this allocator is
//! unsuitable for workloads that interleave long-lived and short-lived
//! allocations.

use crate::allocator::{
    align_up_checked, is_power_of_two, lemma_align_up, lemma_power_of_two_pos, spec_align_up,
};
use vstd::prelude::*;

verus! {

/// Whether a request for `size` bytes at alignment `align` fits between a
/// cursor at `next` and the end of the heap at `heap_end`.
pub open spec fn bump_can_alloc(next: int, heap_end: int, size: int, align: int) -> bool {
    spec_align_up(next, align) + size <= heap_end
}

/// State of a bump allocator over the window `[heap_start, heap_end)`.
/// `next` is the first address not yet handed out; `allocations` counts the
/// blocks currently live.
pub struct BumpAllocInner {
    pub heap_start: usize,
    pub heap_end: usize,
    pub next: usize,
    pub allocations: usize,
}

impl BumpAllocInner {
    /// The cursor always stays inside the heap window.
    pub open spec fn wf(&self) -> bool {
        self.heap_start <= self.next <= self.heap_end
    }

    /// Whether a request for `size` bytes at alignment `align` fits in the
    /// space left after the cursor.
    pub open spec fn spec_can_alloc(&self, size: int, align: int) -> bool {
        bump_can_alloc(self.next as int, self.heap_end as int, size, align)
    }

    /// An empty allocator over the empty window at address zero.
    pub fn new() -> (r: Self)
        ensures
            r.heap_start == 0,
            r.heap_end == 0,
            r.next == 0,
            r.allocations == 0,
            r.wf(),
    {
        Self { heap_start: 0, heap_end: 0, next: 0, allocations: 0 }
    }

    /// Adopt the heap window `[heap_start, heap_start + heap_size)`.
    ///
    /// The caller must have backed the window with writable memory and must
    /// call this exactly once, before any allocation.
    pub fn init(&mut self, heap_start: usize, heap_size: usize)
        requires
            heap_start >= 1,
            heap_start + heap_size <= usize::MAX,
            old(self).allocations == 0,
        ensures
            final(self).heap_start == heap_start,
            final(self).heap_end == heap_start + heap_size,
            final(self).next == heap_start,
            final(self).allocations == 0,
            final(self).wf(),
    {
        self.heap_start = heap_start;
        self.heap_end = heap_start + heap_size;
        self.next = heap_start;
    }

    /// Hand out `size` bytes at alignment `align`, or report that the heap
    /// is exhausted.  The block starts at the cursor rounded up to `align`;
    /// the memory is not zeroed.
    pub fn allocate(&mut self, size: usize, align: usize) -> (r: Option<usize>)
        requires
            old(self).wf(),
            is_power_of_two(align as int),
            old(self).allocations < usize::MAX,
        ensures
            final(self).wf(),
            final(self).heap_start == old(self).heap_start,
            final(self).heap_end == old(self).heap_end,
            match r {
                Some(addr) => {
                    &&& addr as int == spec_align_up(old(self).next as int, align as int)
                    &&& addr as int % align as int == 0
                    &&& old(self).next <= addr
                    &&& addr + size <= old(self).heap_end
                    &&& final(self).next == addr + size
                    &&& final(self).allocations == old(self).allocations + 1
                },
                None => {
                    &&& !old(self).spec_can_alloc(size as int, align as int)
                    &&& *final(self) == *old(self)
                },
            },
    {
        proof {
            lemma_power_of_two_pos(align as int);
            lemma_align_up(self.next as int, align as int);
        }
        let alloc_start = match align_up_checked(self.next, align) {
            Some(a) => a,
            None => {
                return None;
            },
        };
        let alloc_end = match alloc_start.checked_add(size) {
            Some(e) => e,
            None => {
                return None;
            },
        };
        if alloc_end > self.heap_end {
            None
        } else {
            self.next = alloc_end;
            self.allocations = self.allocations + 1;
            Some(alloc_start)
        }
    }

    /// Return one allocation.  When the last outstanding allocation comes
    /// back, the cursor resets to the start of the window, reclaiming the
    /// whole region at once; no individual block is ever reclaimed alone.
    ///
    /// Returns `false`, leaving the state untouched, when there is no
    /// outstanding allocation: freeing more often than allocating is a
    /// caller error, which the surrounding kernel treats as fatal rather
    /// than letting the live count wrap around.
    pub fn deallocate(&mut self) -> (r: bool)
        requires
            old(self).wf(),
        ensures
            final(self).wf(),
            final(self).heap_start == old(self).heap_start,
            final(self).heap_end == old(self).heap_end,
            r == (old(self).allocations > 0),
            r ==> final(self).allocations == old(self).allocations - 1,
            r && old(self).allocations == 1 ==> final(self).next == old(self).heap_start,
            r && old(self).allocations > 1 ==> final(self).next == old(self).next,
            !r ==> *final(self) == *old(self),
            *final(self) == bump_dealloc_state(*old(self)),
    {
        if self.allocations == 0 {
            return false;
        }
        self.allocations = self.allocations - 1;
        if self.allocations == 0 {
            self.next = self.heap_start;
        }
        true
    }
}

/// The state after one `deallocate` call: one fewer live allocation, and
/// the cursor back at the start of the window when the last one leaves.  A
/// call with nothing outstanding is refused and changes nothing.
pub open spec fn bump_dealloc_state(s: BumpAllocInner) -> BumpAllocInner {
    if s.allocations > 0 {
        BumpAllocInner {
            heap_start: s.heap_start,
            heap_end: s.heap_end,
            next: if s.allocations == 1 {
                s.heap_start
            } else {
                s.next
            },
            allocations: (s.allocations - 1) as usize,
        }
    } else {
        s
    }
}

/// The state after `n` consecutive `deallocate` calls.
pub open spec fn bump_after_deallocs(s: BumpAllocInner, n: nat) -> BumpAllocInner
    decreases n,
{
    if n == 0 {
        s
    } else {
        bump_dealloc_state(bump_after_deallocs(s, (n - 1) as nat))
    }
}

/// The blocks handed out by a run of `allocate` calls starting with the
/// cursor at `next`: each request `(size, align)` that fits is served at
/// the cursor rounded up to its alignment, and moves the cursor past the
/// block; requests that do not fit change nothing.
pub open spec fn bump_blocks(next: int, heap_end: int, reqs: Seq<(int, int)>) -> Seq<(int, int)>
    decreases reqs.len(),
{
    if reqs.len() == 0 {
        Seq::empty()
    } else {
        let size = reqs[0].0;
        let align = reqs[0].1;
        if bump_can_alloc(next, heap_end, size, align) {
            seq![(spec_align_up(next, align), size)] + bump_blocks(
                spec_align_up(next, align) + size,
                heap_end,
                reqs.drop_first(),
            )
        } else {
            bump_blocks(next, heap_end, reqs.drop_first())
        }
    }
}

/// No-overlap law: however many allocations a run of requests makes, and
/// with no frees in between, the blocks handed out are pairwise disjoint —
/// each one ends at or before the next begins — and none starts before the
/// cursor did.
pub proof fn lemma_bump_no_overlap(next: int, heap_end: int, reqs: Seq<(int, int)>)
    requires
        next >= 0,
        forall|k: int|
            0 <= k < reqs.len() ==> (#[trigger] reqs[k]).0 >= 0 && is_power_of_two(reqs[k].1),
    ensures
        forall|k: int|
            0 <= k < bump_blocks(next, heap_end, reqs).len() ==> next <= (#[trigger] bump_blocks(
                next,
                heap_end,
                reqs,
            )[k]).0,
        forall|i: int, j: int|
            0 <= i < j < bump_blocks(next, heap_end, reqs).len() ==> (#[trigger] bump_blocks(
                next,
                heap_end,
                reqs,
            )[i]).0 + bump_blocks(next, heap_end, reqs)[i].1 <= (#[trigger] bump_blocks(
                next,
                heap_end,
                reqs,
            )[j]).0,
    decreases reqs.len(),
{
    if reqs.len() > 0 {
        let size = reqs[0].0;
        let align = reqs[0].1;
        lemma_power_of_two_pos(align);
        lemma_align_up(next, align);
        assert forall|k: int|
            0 <= k < reqs.drop_first().len() implies (#[trigger] reqs.drop_first()[k]).0 >= 0
            && is_power_of_two(reqs.drop_first()[k].1) by {
            assert(reqs.drop_first()[k] == reqs[k + 1]);
        }
        let blocks = bump_blocks(next, heap_end, reqs);
        if bump_can_alloc(next, heap_end, size, align) {
            let a = spec_align_up(next, align);
            let rest = bump_blocks(a + size, heap_end, reqs.drop_first());
            lemma_bump_no_overlap(a + size, heap_end, reqs.drop_first());
            assert(blocks == seq![(a, size)] + rest);
            assert forall|k: int| 0 <= k < blocks.len() implies next <= (#[trigger] blocks[k]).0 by {
                if k > 0 {
                    assert(blocks[k] == rest[k - 1]);
                }
            }
            assert forall|i: int, j: int|
                0 <= i < j < blocks.len() implies (#[trigger] blocks[i]).0 + blocks[i].1
                <= (#[trigger] blocks[j]).0 by {
                assert(blocks[j] == rest[j - 1]);
                if i > 0 {
                    assert(blocks[i] == rest[i - 1]);
                }
            }
        } else {
            let rest = bump_blocks(next, heap_end, reqs.drop_first());
            lemma_bump_no_overlap(next, heap_end, reqs.drop_first());
            assert(blocks == rest);
            assert forall|k: int| 0 <= k < blocks.len() implies next <= (#[trigger] blocks[k]).0 by {
                assert(next <= rest[k].0);
            }
            assert forall|i: int, j: int|
                0 <= i < j < blocks.len() implies (#[trigger] blocks[i]).0 + blocks[i].1
                <= (#[trigger] blocks[j]).0 by {
                assert(rest[i].0 + rest[i].1 <= rest[j].0);
            }
        }
    }
}

/// Counting law behind reclaim: `n` frees take away `n` live allocations,
/// never touch the window bounds, and move the cursor back to the start of
/// the window exactly when the last outstanding allocation is freed.
pub proof fn lemma_bump_deallocs(s: BumpAllocInner, n: nat)
    requires
        n <= s.allocations,
    ensures
        bump_after_deallocs(s, n).heap_start == s.heap_start,
        bump_after_deallocs(s, n).heap_end == s.heap_end,
        bump_after_deallocs(s, n).allocations == s.allocations - n,
        bump_after_deallocs(s, n).next == if n >= 1 && n == s.allocations {
            s.heap_start as int
        } else {
            s.next as int
        },
    decreases n,
{
    if n > 0 {
        lemma_bump_deallocs(s, (n - 1) as nat);
    }
}

/// Reclaim law: freeing every outstanding allocation — the frees are
/// interchangeable, so their order does not matter — resets the cursor to
/// the start of the heap window, and a following allocation whose
/// alignment divides the window's start is served at exactly that start
/// address.
pub proof fn lemma_bump_reclaim(s: BumpAllocInner, size: int, align: int)
    requires
        s.wf(),
        s.allocations >= 1,
        is_power_of_two(align),
        s.heap_start as int % align == 0,
        0 <= size <= s.heap_end - s.heap_start,
    ensures
        ({
            let t = bump_after_deallocs(s, s.allocations as nat);
            &&& t.allocations == 0
            &&& t.next == s.heap_start
            &&& t.heap_start == s.heap_start
            &&& t.heap_end == s.heap_end
            &&& t.spec_can_alloc(size, align)
            &&& spec_align_up(t.next as int, align) == s.heap_start
        }),
{
    lemma_bump_deallocs(s, s.allocations as nat);
}

/// Exhaustion law: a request larger than the whole heap window can never
/// be served, from any reachable cursor position.
pub proof fn lemma_bump_exhaustion(s: BumpAllocInner, size: int, align: int)
    requires
        s.wf(),
        is_power_of_two(align),
        size > s.heap_end - s.heap_start,
    ensures
        !s.spec_can_alloc(size, align),
{
    lemma_power_of_two_pos(align);
    lemma_align_up(s.next as int, align);
}

/// Full-capacity law: a fresh cursor serves one request for the whole
/// window, at the window's start; after that the cursor sits at the end,
/// and no request for even a single byte succeeds until a reclaim.
pub proof fn lemma_bump_full_capacity(s: BumpAllocInner, align: int)
    requires
        s.wf(),
        s.next == s.heap_start,
        is_power_of_two(align),
        s.heap_start as int % align == 0,
    ensures
        s.spec_can_alloc(s.heap_end - s.heap_start, align),
        spec_align_up(s.next as int, align) == s.heap_start,
        forall|size2: int, align2: int|
            size2 >= 1 && is_power_of_two(align2) ==> !#[trigger] bump_can_alloc(
                s.heap_end as int,
                s.heap_end as int,
                size2,
                align2,
            ),
{
    assert forall|size2: int, align2: int|
        size2 >= 1 && is_power_of_two(align2) implies !#[trigger] bump_can_alloc(
        s.heap_end as int,
        s.heap_end as int,
        size2,
        align2,
    ) by {
        lemma_power_of_two_pos(align2);
        lemma_align_up(s.heap_end as int, align2);
    }
}

} // verus!
