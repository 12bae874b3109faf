//! Bump allocator: a monotonic cursor advances on every allocation and a
//! live-allocation counter reclaims the entire region, in one step, when it
//! returns to zero.  Individual allocations are never reclaimed on their own;
//! the strategy trades reclaim granularity for speed.

use vstd::prelude::*;
use crate::allocator::{is_pow2, spec_align_up, align_up, lemma_align_up_props, lemma_pow2_is_pos};

verus! {

/// A simple bump allocator.
///
/// Invariant (`wf`): `heap_start <= next <= heap_end`.  The region is only
/// logically empty — reusable from `heap_start` again — once `allocations`
/// has returned to zero.
pub struct BumpAllocator {
    pub heap_start: usize,
    pub heap_end: usize,
    pub next: usize,
    pub allocations: usize,
}

impl BumpAllocator {
    /// State invariant: the cursor stays inside the heap region.
    pub open spec fn wf(self) -> bool {
        self.heap_start <= self.next <= self.heap_end
    }

    /// An allocation of `size` bytes at alignment `align` succeeds exactly
    /// when the cursor, aligned up, still leaves `size` bytes before the end
    /// of the region.
    pub open spec fn can_allocate(self, size: nat, align: nat) -> bool {
        spec_align_up(self.next as int, align as int) + size <= self.heap_end
    }

    /// Creates a new empty bump allocator.
    pub fn new() -> (r: Self)
        ensures
            r.heap_start == 0,
            r.heap_end == 0,
            r.next == 0,
            r.allocations == 0,
            r.wf(),
    {
        BumpAllocator { heap_start: 0, heap_end: 0, next: 0, allocations: 0 }
    }

    /// Initializes the bump allocator with the given heap bounds.
    ///
    /// Bootstrap hands the region over exactly once, before any allocation:
    /// the allocator must not have any live allocation.
    pub fn init(&mut self, heap_start: usize, heap_size: usize)
        requires
            old(self).allocations == 0,
            heap_start + heap_size <= usize::MAX,
        ensures
            final(self).heap_start == heap_start,
            final(self).heap_end == heap_start + heap_size,
            final(self).next == heap_start,
            final(self).allocations == 0,
            final(self).wf(),
    {
        self.heap_start = heap_start;
        self.heap_end = heap_start + heap_size;
        self.next = heap_start;
    }

    /// Aligns the cursor up to `align` and advances it past `size` bytes,
    /// failing without any state change when the region is exhausted.
    pub fn allocate(&mut self, size: usize, align: usize) -> (r: Option<usize>)
        requires
            old(self).wf(),
            is_pow2(align as nat),
            old(self).heap_end + align - 1 <= usize::MAX,
            old(self).allocations < usize::MAX,
        ensures
            final(self).wf(),
            final(self).heap_start == old(self).heap_start,
            final(self).heap_end == old(self).heap_end,
            r is Some <==> old(self).can_allocate(size as nat, align as nat),
            match r {
                Some(a) => bump_alloc_step(
                    *old(self),
                    *final(self),
                    a as nat,
                    size as nat,
                    align as nat,
                ) && a % align == 0,
                None => *final(self) == *old(self),
            },
    {
        proof {
            lemma_pow2_is_pos(align as nat);
            lemma_align_up_props(old(self).next as int, align as int);
        }
        let alloc_start: usize = align_up(self.next, align);
        let alloc_end: usize = match alloc_start.checked_add(size) {
            Some(end) => end,
            None => {
                return None;
            },
        };
        if alloc_end > self.heap_end {
            None
        } else {
            self.next = alloc_end;
            self.allocations = self.allocations + 1;
            Some(alloc_start)
        }
    }

    /// Notes that one live allocation was released; once the counter reaches
    /// zero the cursor returns to the heap start, reclaiming the entire
    /// region at once.  Freeing while other allocations are live reclaims
    /// nothing: liveness is tracked only in aggregate.
    pub fn deallocate(&mut self, _ptr: usize, _size: usize, _align: usize)
        requires
            old(self).wf(),
            old(self).allocations >= 1,
        ensures
            final(self).wf(),
            bump_dealloc_step(*old(self), *final(self)),
            final(self).heap_start == old(self).heap_start,
            final(self).heap_end == old(self).heap_end,
            final(self).allocations == old(self).allocations - 1,
            final(self).allocations == 0 ==> final(self).next == old(self).heap_start,
            final(self).allocations != 0 ==> final(self).next == old(self).next,
    {
        self.allocations = self.allocations - 1;
        if self.allocations == 0 {
            self.next = self.heap_start;
        }
    }
}

/// One successful `allocate(size, align)` call returning address `a`: the
/// relation between the states before and after it.
pub open spec fn bump_alloc_step(
    pre: BumpAllocator,
    post: BumpAllocator,
    a: nat,
    size: nat,
    align: nat,
) -> bool {
    &&& pre.wf()
    &&& is_pow2(align)
    &&& pre.allocations < usize::MAX
    &&& a == spec_align_up(pre.next as int, align as int)
    &&& pre.next <= a
    &&& a + size <= pre.heap_end
    &&& post.heap_start == pre.heap_start
    &&& post.heap_end == pre.heap_end
    &&& post.next == a + size
    &&& post.allocations == pre.allocations + 1
}

/// One `deallocate` call: the relation between the states before and after.
pub open spec fn bump_dealloc_step(pre: BumpAllocator, post: BumpAllocator) -> bool {
    &&& pre.wf()
    &&& pre.allocations >= 1
    &&& post.heap_start == pre.heap_start
    &&& post.heap_end == pre.heap_end
    &&& post.allocations == pre.allocations - 1
    &&& post.next == if post.allocations == 0 { pre.heap_start as int } else { pre.next as int }
}

/// A run of successful allocate calls, with no deallocation in between,
/// leading from `pre` to `post`; `rets` records each returned range as
/// `(address, size)`, in call order.
pub open spec fn bump_alloc_run(
    pre: BumpAllocator,
    post: BumpAllocator,
    rets: Seq<(nat, nat)>,
) -> bool
    decreases rets.len(),
{
    if rets.len() == 0 {
        post == pre
    } else {
        exists|mid: BumpAllocator, g: nat|
            bump_alloc_run(pre, mid, rets.drop_last()) && bump_alloc_step(
                mid,
                post,
                rets.last().0,
                rets.last().1,
                g,
            )
    }
}

/// No overlap: the ranges returned by any run of allocate calls without an
/// intervening deallocate are pairwise disjoint — every earlier range ends
/// at or before the later one begins.
pub proof fn lemma_bump_run_no_overlap(
    pre: BumpAllocator,
    post: BumpAllocator,
    rets: Seq<(nat, nat)>,
)
    requires
        bump_alloc_run(pre, post, rets),
    ensures
        forall|i: int, j: int|
            0 <= i < j < rets.len() ==> (#[trigger] rets[i]).0 + rets[i].1 <= (
            #[trigger] rets[j]).0,
        forall|i: int| 0 <= i < rets.len() ==> (#[trigger] rets[i]).0 + rets[i].1 <= post.next,
    decreases rets.len(),
{
    if rets.len() > 0 {
        let (mid, g) = choose|mid: BumpAllocator, g: nat|
            bump_alloc_run(pre, mid, rets.drop_last()) && bump_alloc_step(
                mid,
                post,
                rets.last().0,
                rets.last().1,
                g,
            );
        lemma_bump_run_no_overlap(pre, mid, rets.drop_last());
        assert forall|i: int, j: int|
            0 <= i < j < rets.len() - 1 implies (#[trigger] rets[i]).0 + rets[i].1 <= (
        #[trigger] rets[j]).0 by {
            assert(rets.drop_last()[i] == rets[i]);
            assert(rets.drop_last()[j] == rets[j]);
        }
        assert forall|i: int| 0 <= i < rets.len() - 1 implies (#[trigger] rets[i]).0 + rets[i].1
            <= rets.last().0 by {
            assert(rets.drop_last()[i] == rets[i]);
            assert(rets[i].0 + rets[i].1 <= mid.next);
        }
    }
}

/// A run of `na` successful allocations and `nd` deallocations, interleaved
/// in any order, leading from `pre` to `post`.
pub open spec fn bump_steps(pre: BumpAllocator, post: BumpAllocator, na: nat, nd: nat) -> bool
    decreases na + nd,
{
    if na == 0 && nd == 0 {
        post == pre
    } else {
        ||| (na >= 1 && exists|mid: BumpAllocator, a: nat, s: nat, g: nat|
            bump_steps(pre, mid, (na - 1) as nat, nd) && bump_alloc_step(mid, post, a, s, g))
        ||| (nd >= 1 && exists|mid: BumpAllocator|
            bump_steps(pre, mid, na, (nd - 1) as nat) && bump_dealloc_step(mid, post))
    }
}

/// Bookkeeping along any run: the heap bounds never change, the counter is
/// the number of allocations minus the number of deallocations, and whenever
/// the counter is zero the cursor sits at the heap start.
pub proof fn lemma_bump_steps_counter(pre: BumpAllocator, post: BumpAllocator, na: nat, nd: nat)
    requires
        bump_steps(pre, post, na, nd),
        pre.allocations == 0 ==> pre.next == pre.heap_start,
    ensures
        post.heap_start == pre.heap_start,
        post.heap_end == pre.heap_end,
        post.allocations + nd == pre.allocations + na,
        post.allocations == 0 ==> post.next == post.heap_start,
    decreases na + nd,
{
    if na == 0 && nd == 0 {
    } else if na >= 1 && exists|mid: BumpAllocator, a: nat, s: nat, g: nat|
        bump_steps(pre, mid, (na - 1) as nat, nd) && bump_alloc_step(mid, post, a, s, g) {
        let (mid, a, s, g) = choose|mid: BumpAllocator, a: nat, s: nat, g: nat|
            bump_steps(pre, mid, (na - 1) as nat, nd) && bump_alloc_step(mid, post, a, s, g);
        lemma_bump_steps_counter(pre, mid, (na - 1) as nat, nd);
    } else {
        let mid = choose|mid: BumpAllocator|
            bump_steps(pre, mid, na, (nd - 1) as nat) && bump_dealloc_step(mid, post);
        lemma_bump_steps_counter(pre, mid, na, (nd - 1) as nat);
    }
}

/// Bump reclaim law: after exactly N successful allocations and N
/// deallocations, in any order, on a freshly initialized bump allocator, the
/// cursor is back at the heap start and a subsequent allocation of any size
/// up to the original heap length succeeds.
pub proof fn lemma_bump_reclaim(pre: BumpAllocator, post: BumpAllocator, n: nat, size: nat)
    requires
        bump_steps(pre, post, n, n),
        pre.wf(),
        pre.allocations == 0,
        pre.next == pre.heap_start,
        size <= pre.heap_end - pre.heap_start,
    ensures
        post.heap_start == pre.heap_start,
        post.heap_end == pre.heap_end,
        post.allocations == 0,
        post.next == post.heap_start,
        post.can_allocate(size, 1),
{
    lemma_bump_steps_counter(pre, post, n, n);
    lemma_align_up_props(post.next as int, 1);
}

} // verus!
