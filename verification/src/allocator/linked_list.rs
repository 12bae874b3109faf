//! Free-list allocator: free regions are tracked as a list of nodes, most
//! recently freed first.  Allocation is a first-fit search that unlinks the
//! chosen region and returns leftover bytes past the allocation to the front
//! of the list; deallocation pushes a new node.  Adjacent free regions are
//! never merged, a documented weakness of this strategy.
//!
//! In the kernel each node lives inside the first bytes of the free region it
//! describes.  Here the heap is an opaque address range and every node is
//! tracked by value as an `(address, size)` pair; the contracts prove that
//! the tracked regions — free nodes and live allocations alike — stay inside
//! the heap and are pairwise disjoint.

use vstd::prelude::*;
use crate::allocator::{
    is_pow2, spec_align_up, align_up, lemma_align_up_props, lemma_pow2_is_pos,
    lemma_pow2_divides, lemma_divides_transitive, lemma_mod_sum_zero, lemma_small_pow2,
};

verus! {

/// Byte footprint of a free-node header: in the kernel a node (a length and
/// a link) must fit inside the region it describes.
pub const NODE_SIZE: usize = 16;

/// Address alignment a free-node header requires.
pub const NODE_ALIGN: usize = 8;

/// One free region, recorded as its start address and byte length.
#[derive(Clone, Copy, Debug, PartialEq, Eq, Structural)]
pub struct ListNode {
    pub addr: usize,
    pub size: usize,
}

impl ListNode {
    /// A node describing the `size` bytes starting at `addr`.
    pub fn new(addr: usize, size: usize) -> (r: Self)
        ensures
            r.addr == addr,
            r.size == size,
    {
        ListNode { addr, size }
    }

    /// First address of the region.
    pub fn start_addr(&self) -> (r: usize)
        ensures
            r == self.addr,
    {
        self.addr
    }

    /// First address past the region.
    pub fn end_addr(&self) -> (r: usize)
        requires
            self.addr + self.size <= usize::MAX,
        ensures
            r == self.addr + self.size,
    {
        self.addr + self.size
    }
}

/// The two regions occupy no common byte.
pub open spec fn regions_disjoint(a1: nat, s1: nat, a2: nat, s2: nat) -> bool {
    a1 + s1 <= a2 || a2 + s2 <= a1
}

/// The two free nodes occupy no common byte.
pub open spec fn nodes_disjoint(m: ListNode, n: ListNode) -> bool {
    regions_disjoint(m.addr as nat, m.size as nat, n.addr as nat, n.size as nat)
}

/// Free node `n` and allocated region `q` occupy no common byte.
pub open spec fn node_avoids(n: ListNode, q: (nat, nat)) -> bool {
    regions_disjoint(n.addr as nat, n.size as nat, q.0, q.1)
}

/// A region contained in another is disjoint from whatever the outer region
/// is disjoint from.
pub proof fn lemma_subrange_disjoint(a: nat, s: nat, b: nat, t: nat, c: nat, u: nat)
    requires
        b <= a,
        a + s <= b + t,
        regions_disjoint(b, t, c, u),
    ensures
        regions_disjoint(a, s, c, u),
{
}

/// The alignment `size_align` adjusts a request to: at least the node
/// header's own alignment.
pub open spec fn spec_adj_align(align: nat) -> nat {
    if align >= NODE_ALIGN { align } else { NODE_ALIGN as nat }
}

/// The size `size_align` adjusts a request to: padded to a multiple of the
/// adjusted alignment and at least the node header's own size, so that any
/// freed block can host a node again.
pub open spec fn spec_adj_size(size: nat, align: nat) -> nat {
    let padded = spec_align_up(size as int, spec_adj_align(align) as int);
    if padded >= NODE_SIZE { padded as nat } else { NODE_SIZE as nat }
}

/// The adjusted request dominates the original one and keeps every property
/// a free node needs: power-of-two alignment at least `NODE_ALIGN`, a size
/// that is a multiple of `NODE_ALIGN` and at least `NODE_SIZE`.
pub proof fn lemma_adj_props(size: nat, align: nat)
    requires
        is_pow2(align),
    ensures
        is_pow2(spec_adj_align(align)),
        spec_adj_align(align) >= NODE_ALIGN,
        spec_adj_align(align) >= align,
        spec_adj_align(align) % align == 0,
        spec_adj_size(size, align) >= size,
        spec_adj_size(size, align) >= NODE_SIZE,
        spec_adj_size(size, align) % (NODE_ALIGN as nat) == 0,
        (spec_adj_size(size, align) as int) % (spec_adj_align(align) as int) == 0
            || spec_adj_size(size, align) == NODE_SIZE,
        spec_adj_size(size, align) < size + spec_adj_align(align) + NODE_SIZE,
{
    lemma_small_pow2();
    lemma_pow2_is_pos(align);
    let aa = spec_adj_align(align);
    lemma_pow2_divides(align, aa);
    lemma_align_up_props(size as int, aa as int);
    let padded = spec_align_up(size as int, aa as int);
    lemma_pow2_divides(NODE_ALIGN as nat, aa);
    lemma_divides_transitive(padded, NODE_ALIGN as int, aa as int);
    assert((NODE_SIZE as int) % (NODE_ALIGN as int) == 0);
}

/// The acceptance test of `alloc_from_region`: the aligned allocation fits
/// inside the region, and the leftover past it is either empty or large
/// enough to host a node header.
pub open spec fn region_fits(node: ListNode, size: nat, align: nat) -> bool {
    let start = spec_align_up(node.addr as int, align as int);
    let end = start + size;
    &&& end <= node.addr + node.size
    &&& (node.addr + node.size - end == 0 || node.addr + node.size - end >= NODE_SIZE)
}

/// Index of the first region in `s` that satisfies `region_fits`, or -1 if
/// none does.
pub open spec fn first_fit_index(s: Seq<ListNode>, size: nat, align: nat) -> int
    decreases s.len(),
{
    if s.len() == 0 {
        -1
    } else if region_fits(s[0], size, align) {
        0
    } else {
        let rest = first_fit_index(s.drop_first(), size, align);
        if rest == -1 {
            -1
        } else {
            rest + 1
        }
    }
}

/// If everything before `i` is rejected and `s[i]` fits, then `i` is the
/// first fit.
pub proof fn lemma_first_fit_is(s: Seq<ListNode>, size: nat, align: nat, i: int)
    requires
        0 <= i < s.len(),
        region_fits(s[i], size, align),
        forall|j: int| 0 <= j < i ==> !region_fits(#[trigger] s[j], size, align),
    ensures
        first_fit_index(s, size, align) == i,
    decreases i,
{
    if i > 0 {
        assert forall|j: int| 0 <= j < i - 1 implies !region_fits(
            #[trigger] s.drop_first()[j],
            size,
            align,
        ) by {
            assert(s.drop_first()[j] == s[j + 1]);
        }
        assert(s.drop_first()[i - 1] == s[i]);
        lemma_first_fit_is(s.drop_first(), size, align, i - 1);
    }
}

/// If no region fits, the first-fit index is -1.
pub proof fn lemma_first_fit_none(s: Seq<ListNode>, size: nat, align: nat)
    requires
        forall|j: int| 0 <= j < s.len() ==> !region_fits(#[trigger] s[j], size, align),
    ensures
        first_fit_index(s, size, align) == -1,
    decreases s.len(),
{
    if s.len() > 0 {
        assert forall|j: int| 0 <= j < s.drop_first().len() implies !region_fits(
            #[trigger] s.drop_first()[j],
            size,
            align,
        ) by {
            assert(s.drop_first()[j] == s[j + 1]);
        }
        lemma_first_fit_none(s.drop_first(), size, align);
    }
}

/// The first-fit index is either -1 or a valid index whose region fits.
pub proof fn lemma_first_fit_bounds(s: Seq<ListNode>, size: nat, align: nat)
    ensures
        -1 <= first_fit_index(s, size, align) < s.len(),
        first_fit_index(s, size, align) >= 0 ==> region_fits(
            s[first_fit_index(s, size, align)],
            size,
            align,
        ),
    decreases s.len(),
{
    if s.len() > 0 && !region_fits(s[0], size, align) {
        lemma_first_fit_bounds(s.drop_first(), size, align);
        let rest = first_fit_index(s.drop_first(), size, align);
        if rest >= 0 {
            assert(s.drop_first()[rest] == s[rest + 1]);
        }
    }
}

/// Total number of free bytes the list tracks.
pub open spec fn free_bytes(s: Seq<ListNode>) -> int
    decreases s.len(),
{
    if s.len() == 0 {
        0
    } else {
        s[0].size + free_bytes(s.drop_first())
    }
}

/// A simple free-list allocator.
///
/// `free` is the chain hanging off the list head, most recently freed region
/// first.  `allocated` is the ghost record of the live allocations, each as
/// `(address, adjusted size)`; it ties the no-overlap invariant together.
pub struct LinkedListAllocator {
    pub heap_start: usize,
    pub heap_end: usize,
    pub free: Vec<ListNode>,
    pub allocated: Ghost<Set<(nat, nat)>>,
}

impl LinkedListAllocator {
    /// The region lies inside the heap handed over at initialization.
    pub open spec fn region_in_heap(self, a: nat, s: nat) -> bool {
        self.heap_start <= a && a + s <= self.heap_end
    }

    /// A valid free node: inside the heap, and with the size and alignment
    /// needed to host a node header in its own bytes.
    pub open spec fn node_ok(self, n: ListNode) -> bool {
        &&& self.region_in_heap(n.addr as nat, n.size as nat)
        &&& n.size >= NODE_SIZE
        &&& n.addr % NODE_ALIGN == 0
    }

    /// A valid live allocation: inside the heap, and — because its size and
    /// address were adjusted on allocation — able to host a node header once
    /// it is freed again.
    pub open spec fn alloc_ok(self, q: (nat, nat)) -> bool {
        &&& self.region_in_heap(q.0, q.1)
        &&& q.1 >= NODE_SIZE
        &&& q.0 % (NODE_ALIGN as nat) == 0
    }

    /// State invariant: every tracked region — free node or live allocation
    /// — is valid, and all of them are pairwise disjoint.
    pub open spec fn wf(self) -> bool {
        &&& self.heap_start <= self.heap_end <= usize::MAX
        &&& forall|i: int|
            0 <= i < self.free@.len() ==> self.node_ok(#[trigger] self.free@[i])
        &&& forall|i: int, j: int|
            0 <= i < j < self.free@.len() ==> nodes_disjoint(
                #[trigger] self.free@[i],
                #[trigger] self.free@[j],
            )
        &&& forall|q: (nat, nat)| #[trigger] self.allocated@.contains(q) ==> self.alloc_ok(q)
        &&& forall|i: int, q: (nat, nat)|
            0 <= i < self.free@.len() && #[trigger] self.allocated@.contains(q) ==> node_avoids(
                #[trigger] self.free@[i],
                q,
            )
        &&& forall|q1: (nat, nat), q2: (nat, nat)|
            #[trigger] self.allocated@.contains(q1) && #[trigger] self.allocated@.contains(q2)
                && q1 != q2 ==> regions_disjoint(q1.0, q1.1, q2.0, q2.1)
    }

    /// Creates an empty allocator, not yet tied to any heap region.
    pub fn new() -> (r: Self)
        ensures
            r.wf(),
            r.heap_start == 0,
            r.heap_end == 0,
            r.free@.len() == 0,
            r.allocated@ == Set::<(nat, nat)>::empty(),
    {
        LinkedListAllocator {
            heap_start: 0,
            heap_end: 0,
            free: Vec::new(),
            allocated: Ghost(Set::empty()),
        }
    }

    /// Initialize the allocator with the given heap bounds.
    ///
    /// Bootstrap calls this exactly once, before the first allocation, with
    /// a mapped, writable and otherwise unused region; afterwards the whole
    /// region is available as one free node.
    pub fn init(&mut self, heap_start: usize, heap_size: usize)
        requires
            old(self).free@.len() == 0,
            old(self).allocated@ == Set::<(nat, nat)>::empty(),
            heap_start % NODE_ALIGN == 0,
            heap_size >= NODE_SIZE,
            heap_start + heap_size <= usize::MAX,
        ensures
            final(self).wf(),
            final(self).heap_start == heap_start,
            final(self).heap_end == heap_start + heap_size,
            final(self).free@ =~= seq![(ListNode { addr: heap_start, size: heap_size })],
            final(self).allocated@ == old(self).allocated@,
            free_bytes(final(self).free@) == heap_size,
    {
        self.heap_start = heap_start;
        self.heap_end = heap_start + heap_size;
        self.add_free_region(heap_start, heap_size);
        proof {
            assert(self.free@ =~= seq![(ListNode { addr: heap_start, size: heap_size })]);
            assert(self.free@.drop_first() =~= Seq::<ListNode>::empty());
            assert(free_bytes(self.free@.drop_first()) == 0);
            assert(free_bytes(self.free@) == heap_size);
        }
    }

    /// Adds the given memory region to the front of the list.  The region
    /// must be able to host a node header and must not overlap anything the
    /// allocator tracks.
    pub fn add_free_region(&mut self, addr: usize, size: usize)
        requires
            old(self).wf(),
            addr % NODE_ALIGN == 0,
            size >= NODE_SIZE,
            old(self).region_in_heap(addr as nat, size as nat),
            forall|i: int|
                0 <= i < old(self).free@.len() ==> nodes_disjoint(
                    #[trigger] old(self).free@[i],
                    (ListNode { addr, size }),
                ),
            forall|q: (nat, nat)| #[trigger]
                old(self).allocated@.contains(q) ==> node_avoids((ListNode { addr, size }), q),
        ensures
            final(self).wf(),
            final(self).heap_start == old(self).heap_start,
            final(self).heap_end == old(self).heap_end,
            final(self).free@ == old(self).free@.insert(0, (ListNode { addr, size })),
            final(self).allocated@ == old(self).allocated@,
    {
        let node = ListNode::new(addr, size);
        self.free.insert(0, node);
        proof {
            let s = self.free@;
            let s0 = old(self).free@;
            assert forall|i: int| 0 <= i < s.len() implies self.node_ok(#[trigger] s[i]) by {
                if i >= 1 {
                    assert(s[i] == s0[i - 1]);
                }
            }
            assert forall|i: int, j: int| 0 <= i < j < s.len() implies nodes_disjoint(
                #[trigger] s[i],
                #[trigger] s[j],
            ) by {
                if i == 0 {
                    assert(s[j] == s0[j - 1]);
                } else {
                    assert(s[i] == s0[i - 1]);
                    assert(s[j] == s0[j - 1]);
                }
            }
            assert forall|i: int, q: (nat, nat)|
                0 <= i < s.len() && #[trigger] self.allocated@.contains(q) implies node_avoids(
                #[trigger] s[i],
                q,
            ) by {
                if i >= 1 {
                    assert(s[i] == s0[i - 1]);
                }
            }
        }
    }

    /// Looks for the first free region that satisfies the given size and
    /// alignment and removes it from the list; returns the region together
    /// with the start address of the allocation inside it.
    pub fn find_region(&mut self, size: usize, align: usize) -> (r: Option<(ListNode, usize)>)
        requires
            old(self).wf(),
            is_pow2(align as nat),
        ensures
            final(self).wf(),
            final(self).heap_start == old(self).heap_start,
            final(self).heap_end == old(self).heap_end,
            final(self).allocated@ == old(self).allocated@,
            match r {
                None => {
                    &&& *final(self) == *old(self)
                    &&& first_fit_index(old(self).free@, size as nat, align as nat) == -1
                },
                Some((node, start)) => {
                    let i = first_fit_index(old(self).free@, size as nat, align as nat);
                    &&& 0 <= i < old(self).free@.len()
                    &&& node == old(self).free@[i]
                    &&& region_fits(node, size as nat, align as nat)
                    &&& start == spec_align_up(node.addr as int, align as int)
                    &&& start % align == 0
                    &&& final(self).free@ == old(self).free@.remove(i)
                },
            },
    {
        let ghost orig = self.free@;
        let mut i: usize = 0;
        loop
            invariant
                self.wf(),
                is_pow2(align as nat),
                *self == *old(self),
                self.free@ == orig,
                i <= orig.len(),
                forall|j: int|
                    0 <= j < i ==> !region_fits(#[trigger] orig[j], size as nat, align as nat),
            decreases orig.len() - i,
        {
            if i >= self.free.len() {
                proof {
                    lemma_first_fit_none(orig, size as nat, align as nat);
                }
                return None;
            }
            let node = self.free[i];
            match Self::alloc_from_region(&node, size, align) {
                Ok(start) => {
                    let removed = self.free.remove(i);
                    proof {
                        lemma_first_fit_is(orig, size as nat, align as nat, i as int);
                        let s = self.free@;
                        assert forall|a: int| 0 <= a < s.len() implies self.node_ok(
                            #[trigger] s[a],
                        ) by {
                            if a < i {
                                assert(s[a] == orig[a]);
                            } else {
                                assert(s[a] == orig[a + 1]);
                            }
                        }
                        assert forall|a: int, b: int| 0 <= a < b < s.len() implies nodes_disjoint(
                            #[trigger] s[a],
                            #[trigger] s[b],
                        ) by {
                            if a < i {
                                assert(s[a] == orig[a]);
                            } else {
                                assert(s[a] == orig[a + 1]);
                            }
                            if b < i {
                                assert(s[b] == orig[b]);
                            } else {
                                assert(s[b] == orig[b + 1]);
                            }
                        }
                        assert forall|a: int, q: (nat, nat)|
                            0 <= a < s.len() && #[trigger] self.allocated@.contains(q)
                            implies node_avoids(#[trigger] s[a], q) by {
                            if a < i {
                                assert(s[a] == orig[a]);
                            } else {
                                assert(s[a] == orig[a + 1]);
                            }
                        }
                    }
                    return Some((removed, start));
                },
                Err(_) => {
                    i = i + 1;
                },
            }
        }
    }

    /// Try to use the given region for an allocation with the given size and
    /// alignment.  Returns the allocation start address — the region's start
    /// aligned up — on success; rejects the region when the allocation does
    /// not fit or would leave a leftover too small to host a node header.
    pub fn alloc_from_region(region: &ListNode, size: usize, align: usize) -> (r: Result<
        usize,
        (),
    >)
        requires
            is_pow2(align as nat),
            region.addr + region.size <= usize::MAX,
        ensures
            r is Ok <==> region_fits(*region, size as nat, align as nat),
            match r {
                Ok(a) => a == spec_align_up(region.addr as int, align as int) && a % align == 0,
                Err(_) => true,
            },
    {
        proof {
            lemma_pow2_is_pos(align as nat);
            lemma_align_up_props(region.addr as int, align as int);
        }
        let rem: usize = region.addr % align;
        let alloc_start: usize = if rem == 0 {
            region.addr
        } else {
            let pad: usize = align - rem;
            if region.addr > usize::MAX - pad {
                // the aligned start would lie beyond the address space
                return Err(());
            }
            region.addr + pad
        };
        let alloc_end: usize = match alloc_start.checked_add(size) {
            Some(end) => end,
            None => {
                return Err(());
            },
        };
        let region_end: usize = region.addr + region.size;
        if alloc_end > region_end {
            return Err(());
        }
        let excess_size: usize = region_end - alloc_end;
        if excess_size > 0 && excess_size < NODE_SIZE {
            // leftover too small to host a node header
            return Err(());
        }
        Ok(alloc_start)
    }

    /// Adjust the given request so that the allocated region is also capable
    /// of storing a node header once freed.  Returns the adjusted size and
    /// alignment as a `(size, align)` tuple.
    pub fn size_align(size: usize, align: usize) -> (r: (usize, usize))
        requires
            is_pow2(align as nat),
            size + align + NODE_SIZE <= usize::MAX,
        ensures
            r.0 == spec_adj_size(size as nat, align as nat),
            r.1 == spec_adj_align(align as nat),
    {
        proof {
            lemma_small_pow2();
        }
        let a: usize = if align >= NODE_ALIGN {
            align
        } else {
            NODE_ALIGN
        };
        proof {
            lemma_align_up_props(size as int, a as int);
        }
        let padded: usize = align_up(size, a);
        let s: usize = if padded >= NODE_SIZE {
            padded
        } else {
            NODE_SIZE
        };
        (s, a)
    }

    /// Serves an allocation request: the request is adjusted by
    /// `size_align`, the first fitting region is unlinked, and any leftover
    /// past the allocation returns to the front of the list as a new node.
    /// Fails, leaving the state unchanged, exactly when no region fits the
    /// adjusted request.
    pub fn allocate(&mut self, size: usize, align: usize) -> (r: Option<usize>)
        requires
            old(self).wf(),
            is_pow2(align as nat),
            size + align + NODE_SIZE <= usize::MAX,
        ensures
            final(self).wf(),
            final(self).heap_start == old(self).heap_start,
            final(self).heap_end == old(self).heap_end,
            ll_allocate_spec(*old(self), *final(self), size as nat, align as nat, r),
            r is Some <==> first_fit_index(
                old(self).free@,
                spec_adj_size(size as nat, align as nat),
                spec_adj_align(align as nat),
            ) >= 0,
            match r {
                Some(a) => {
                    &&& a % align == 0
                    &&& old(self).heap_start <= a
                    &&& a + size <= old(self).heap_end
                    &&& forall|q: (nat, nat)| #[trigger]
                        old(self).allocated@.contains(q) ==> regions_disjoint(
                            a as nat,
                            spec_adj_size(size as nat, align as nat),
                            q.0,
                            q.1,
                        )
                    &&& final(self).allocated@ == old(self).allocated@.insert(
                        (a as nat, spec_adj_size(size as nat, align as nat)),
                    )
                },
                None => *final(self) == *old(self),
            },
    {
        let (asize, aalign) = Self::size_align(size, align);
        proof {
            lemma_adj_props(size as nat, align as nat);
        }
        match self.find_region(asize, aalign) {
            Some((region, alloc_start)) => {
                proof {
                    lemma_small_pow2();
                    lemma_pow2_is_pos(aalign as nat);
                    lemma_pow2_is_pos(align as nat);
                    lemma_align_up_props(region.addr as int, aalign as int);
                }
                let alloc_end: usize = alloc_start + asize;
                let region_end: usize = region.addr + region.size;
                let excess_size: usize = region_end - alloc_end;
                let ghost newq = (alloc_start as nat, asize as nat);
                proof {
                    let i = first_fit_index(old(self).free@, asize as nat, aalign as nat);
                    // the allocation lies inside the chosen region
                    assert(region.addr <= alloc_start);
                    assert(alloc_end <= region_end);
                    // the allocation is node-aligned and node-sized
                    lemma_pow2_divides(NODE_ALIGN as nat, aalign as nat);
                    lemma_divides_transitive(
                        alloc_start as int,
                        NODE_ALIGN as int,
                        aalign as int,
                    );
                    // the allocation start keeps the caller's alignment too
                    lemma_divides_transitive(alloc_start as int, align as int, aalign as int);
                    // record the allocation
                    self.allocated@ = self.allocated@.insert(newq);
                    assert forall|q: (nat, nat)| #[trigger]
                        self.allocated@.contains(q) implies self.alloc_ok(q) by {
                        if q != newq {
                            assert(old(self).allocated@.contains(q));
                        }
                    }
                    assert forall|q: (nat, nat)| #[trigger]
                        old(self).allocated@.contains(q) implies regions_disjoint(
                        newq.0,
                        newq.1,
                        q.0,
                        q.1,
                    ) by {
                        assert(node_avoids(region, q));
                        lemma_subrange_disjoint(
                            newq.0,
                            newq.1,
                            region.addr as nat,
                            region.size as nat,
                            q.0,
                            q.1,
                        );
                    }
                    assert forall|q1: (nat, nat), q2: (nat, nat)| #[trigger]
                        self.allocated@.contains(q1) && #[trigger] self.allocated@.contains(q2)
                            && q1 != q2 implies regions_disjoint(q1.0, q1.1, q2.0, q2.1) by {
                        if q1 != newq && q2 != newq {
                            assert(old(self).allocated@.contains(q1));
                            assert(old(self).allocated@.contains(q2));
                        } else if q1 == newq {
                            assert(old(self).allocated@.contains(q2));
                        } else {
                            assert(old(self).allocated@.contains(q1));
                        }
                    }
                    assert forall|a: int, q: (nat, nat)|
                        0 <= a < self.free@.len() && #[trigger] self.allocated@.contains(q)
                        implies node_avoids(#[trigger] self.free@[a], q) by {
                        if q == newq {
                            // the remaining nodes were disjoint from the
                            // chosen region, which contains the allocation
                            let s0 = old(self).free@;
                            if a < i {
                                assert(self.free@[a] == s0[a]);
                                assert(nodes_disjoint(s0[a], s0[i]));
                            } else {
                                assert(self.free@[a] == s0[a + 1]);
                                assert(nodes_disjoint(s0[i], s0[a + 1]));
                            }
                            lemma_subrange_disjoint(
                                newq.0,
                                newq.1,
                                region.addr as nat,
                                region.size as nat,
                                self.free@[a].addr as nat,
                                self.free@[a].size as nat,
                            );
                        }
                    }
                    assert(self.wf());
                }
                if excess_size > 0 {
                    proof {
                        // the leftover starts right past the allocation,
                        // node-aligned because both parts are
                        lemma_mod_sum_zero(alloc_start as int, asize as int, NODE_ALIGN as int);
                        assert forall|a: int|
                            0 <= a < self.free@.len() implies nodes_disjoint(
                            #[trigger] self.free@[a],
                            (ListNode { addr: alloc_end, size: excess_size }),
                        ) by {
                            let i = first_fit_index(
                                old(self).free@,
                                asize as nat,
                                aalign as nat,
                            );
                            let s0 = old(self).free@;
                            if a < i {
                                assert(self.free@[a] == s0[a]);
                                assert(nodes_disjoint(s0[a], s0[i]));
                            } else {
                                assert(self.free@[a] == s0[a + 1]);
                                assert(nodes_disjoint(s0[i], s0[a + 1]));
                            }
                            lemma_subrange_disjoint(
                                alloc_end as nat,
                                excess_size as nat,
                                region.addr as nat,
                                region.size as nat,
                                self.free@[a].addr as nat,
                                self.free@[a].size as nat,
                            );
                        }
                        assert forall|q: (nat, nat)| #[trigger]
                            self.allocated@.contains(q) implies node_avoids(
                            (ListNode { addr: alloc_end, size: excess_size }),
                            q,
                        ) by {
                            if q == newq {
                                assert(regions_disjoint(
                                    alloc_end as nat,
                                    excess_size as nat,
                                    newq.0,
                                    newq.1,
                                ));
                            } else {
                                assert(old(self).allocated@.contains(q));
                                assert(node_avoids(region, q));
                                lemma_subrange_disjoint(
                                    alloc_end as nat,
                                    excess_size as nat,
                                    region.addr as nat,
                                    region.size as nat,
                                    q.0,
                                    q.1,
                                );
                            }
                        }
                    }
                    self.add_free_region(alloc_end, excess_size);
                }
                Some(alloc_start)
            },
            None => None,
        }
    }

    /// Returns a block to the allocator: the adjusted region is pushed onto
    /// the front of the free list as a new node.  Adjacent free regions are
    /// never merged; repeated allocation and deallocation of varying sizes
    /// can fragment the heap until a request fails even though the free
    /// bytes in total would suffice.  The block must be one that `allocate`
    /// returned, with the same size and alignment it was requested with.
    pub fn deallocate(&mut self, ptr: usize, size: usize, align: usize)
        requires
            old(self).wf(),
            is_pow2(align as nat),
            size + align + NODE_SIZE <= usize::MAX,
            old(self).allocated@.contains(
                (ptr as nat, spec_adj_size(size as nat, align as nat)),
            ),
        ensures
            final(self).wf(),
            final(self).heap_start == old(self).heap_start,
            final(self).heap_end == old(self).heap_end,
            ll_deallocate_spec(*old(self), *final(self), ptr, size as nat, align as nat),
    {
        let (asize, _aalign) = Self::size_align(size, align);
        proof {
            lemma_adj_props(size as nat, align as nat);
            let q = (ptr as nat, asize as nat);
            self.allocated@ = self.allocated@.remove(q);
            assert(old(self).alloc_ok(q));
            assert forall|i: int|
                0 <= i < self.free@.len() implies nodes_disjoint(
                #[trigger] self.free@[i],
                (ListNode { addr: ptr, size: asize }),
            ) by {
                assert(node_avoids(self.free@[i], q));
            }
            assert forall|p: (nat, nat)| #[trigger]
                self.allocated@.contains(p) implies node_avoids(
                (ListNode { addr: ptr, size: asize }),
                p,
            ) by {
                assert(old(self).allocated@.contains(p));
                assert(p != q);
            }
        }
        self.add_free_region(ptr, asize);
    }
}

/// Full effect of `allocate(size, align)`: the request is adjusted by
/// `size_align`, the first fitting free region is unlinked, the allocation
/// starts at that region's start aligned up, and leftover bytes past the
/// allocation return to the front of the list as a new node.  Bytes between
/// the region's start and the aligned allocation start, if any, are dropped
/// from the list — the strategy does not track them.
pub open spec fn ll_allocate_spec(
    pre: LinkedListAllocator,
    post: LinkedListAllocator,
    size: nat,
    align: nat,
    r: Option<usize>,
) -> bool {
    let asize = spec_adj_size(size, align);
    let aalign = spec_adj_align(align);
    let i = first_fit_index(pre.free@, asize, aalign);
    &&& post.heap_start == pre.heap_start
    &&& post.heap_end == pre.heap_end
    &&& match r {
        None => post == pre && i == -1,
        Some(a) => {
            let node = pre.free@[i];
            let excess = node.addr + node.size - (a + asize);
            &&& i >= 0
            &&& a == spec_align_up(node.addr as int, aalign as int)
            &&& post.allocated@ == pre.allocated@.insert((a as nat, asize))
            &&& post.free@ == if excess > 0 {
                pre.free@.remove(i).insert(
                    0,
                    ListNode { addr: (a + asize) as usize, size: excess as usize },
                )
            } else {
                pre.free@.remove(i)
            }
        },
    }
}

/// Full effect of `deallocate(ptr, size, align)`: the region, adjusted as
/// on allocation, becomes the new front node of the free list.
pub open spec fn ll_deallocate_spec(
    pre: LinkedListAllocator,
    post: LinkedListAllocator,
    ptr: usize,
    size: nat,
    align: nat,
) -> bool {
    let asize = spec_adj_size(size, align);
    &&& post.heap_start == pre.heap_start
    &&& post.heap_end == pre.heap_end
    &&& post.free@ == pre.free@.insert(0, ListNode { addr: ptr, size: asize as usize })
    &&& post.allocated@ == pre.allocated@.remove((ptr as nat, asize))
}

/// Free-list reuse law: allocate a block, deallocate it, then allocate with
/// the same size and alignment again — the second allocation returns the
/// same address, because deallocation pushes the freed node onto the front
/// of the list and the search is first-fit.
pub proof fn lemma_free_list_reuse(
    s0: LinkedListAllocator,
    s1: LinkedListAllocator,
    s2: LinkedListAllocator,
    s3: LinkedListAllocator,
    size: usize,
    align: usize,
    a: usize,
    r2: Option<usize>,
)
    requires
        is_pow2(align as nat),
        size + align + NODE_SIZE <= usize::MAX,
        a + spec_adj_size(size as nat, align as nat) <= usize::MAX,
        ll_allocate_spec(s0, s1, size as nat, align as nat, Some(a)),
        ll_deallocate_spec(s1, s2, a, size as nat, align as nat),
        ll_allocate_spec(s2, s3, size as nat, align as nat, r2),
    ensures
        r2 == Some(a),
{
    lemma_adj_props(size as nat, align as nat);
    let asize = spec_adj_size(size as nat, align as nat);
    let aalign = spec_adj_align(align as nat);
    lemma_first_fit_bounds(s0.free@, asize, aalign);
    let i = first_fit_index(s0.free@, asize, aalign);
    let node0 = s0.free@[i];
    lemma_pow2_is_pos(aalign);
    lemma_align_up_props(node0.addr as int, aalign as int);
    assert(a as int % (aalign as int) == 0);
    let front = ListNode { addr: a, size: asize as usize };
    assert(s2.free@[0] == front);
    assert(spec_align_up(a as int, aalign as int) == a);
    assert(region_fits(front, asize, aalign));
    assert(first_fit_index(s2.free@, asize, aalign) == 0);
    assert(r2 is Some);
}

} // verus!
