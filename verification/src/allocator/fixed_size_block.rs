//! Fixed-size-block allocator: one free list per power-of-two size class for
//! O(1) allocation and deallocation of small objects, with a free-list
//! allocator as fallback for oversized requests and as the source of fresh
//! blocks when a class list is empty.
//!
//! A block handed out for class `c` occupies the region the fallback
//! reserved for it — `spec_class_reserved(c)` bytes — whether it currently
//! sits in the class's free list or is live.  The invariant keeps every such
//! block registered in the fallback's allocation record, which makes all
//! blocks and live allocations pairwise disjoint.

use vstd::prelude::*;
use crate::allocator::{
    is_pow2, lemma_pow2_is_pos, lemma_pow2_divides, lemma_divides_transitive, lemma_small_pow2,
    lemma_align_up_props,
};
use crate::allocator::linked_list::{
    LinkedListAllocator, ll_allocate_spec, ll_deallocate_spec, regions_disjoint, spec_adj_size,
    spec_adj_align, lemma_adj_props, NODE_SIZE,
};

verus! {

/// Number of size classes.
pub const BLOCK_COUNT: usize = 9;

/// Largest block size a class serves.
pub const MAX_BLOCK_SIZE: usize = 2048;

/// The block size of class `i`: the powers of two from 8 to 2048 bytes.
/// Each class's blocks are also aligned to their own size.
pub open spec fn spec_block_size(i: int) -> int {
    if i == 0 {
        8
    } else if i == 1 {
        16
    } else if i == 2 {
        32
    } else if i == 3 {
        64
    } else if i == 4 {
        128
    } else if i == 5 {
        256
    } else if i == 6 {
        512
    } else if i == 7 {
        1024
    } else {
        2048
    }
}

/// The smallest class able to host both the size and the alignment of a
/// request, or -1 when even the largest class is too small.
pub open spec fn spec_list_index(size: nat, align: nat) -> int {
    let req: nat = if size >= align {
        size
    } else {
        align
    };
    if req <= 8 {
        0
    } else if req <= 16 {
        1
    } else if req <= 32 {
        2
    } else if req <= 64 {
        3
    } else if req <= 128 {
        4
    } else if req <= 256 {
        5
    } else if req <= 512 {
        6
    } else if req <= 1024 {
        7
    } else if req <= 2048 {
        8
    } else {
        -1
    }
}

/// Bytes the fallback reserves for one block of class `i`: the class size,
/// adjusted as the fallback adjusts every request.
pub open spec fn spec_class_reserved(i: int) -> nat {
    spec_adj_size(spec_block_size(i) as nat, spec_block_size(i) as nat)
}

/// Bytes reserved for a request: its class's reservation, or the adjusted
/// request itself when it bypasses the classes.
pub open spec fn spec_reserved(size: nat, align: nat) -> nat {
    let idx = spec_list_index(size, align);
    if idx >= 0 {
        spec_class_reserved(idx)
    } else {
        spec_adj_size(size, align)
    }
}

/// Properties of class selection: a selected class hosts both the size and
/// the alignment of the request; no class is selected only for oversized
/// requests.
pub proof fn lemma_list_index_props(size: nat, align: nat)
    ensures
        -1 <= spec_list_index(size, align) < BLOCK_COUNT,
        spec_list_index(size, align) >= 0 ==> size <= spec_block_size(spec_list_index(size, align))
            && align <= spec_block_size(spec_list_index(size, align)),
        spec_list_index(size, align) == -1 ==> size > MAX_BLOCK_SIZE || align > MAX_BLOCK_SIZE,
{
}

/// The reservation of a class: the class size, or the free-list node
/// minimum for the one class smaller than it.
pub proof fn lemma_class_reserved(i: int)
    requires
        0 <= i < BLOCK_COUNT,
    ensures
        spec_class_reserved(i) == if spec_block_size(i) >= NODE_SIZE {
            spec_block_size(i)
        } else {
            NODE_SIZE as int
        },
        spec_class_reserved(i) >= spec_block_size(i),
        spec_class_reserved(i) >= NODE_SIZE,
        is_pow2(spec_block_size(i) as nat),
        is_pow2(spec_class_reserved(i) as nat),
{
    lemma_small_pow2();
    let bs = spec_block_size(i);
    lemma_adj_props(bs as nat, bs as nat);
    assert(spec_adj_align(bs as nat) == bs);
    lemma_align_up_props(bs, bs);
    assert(bs % bs == 0) by {
        vstd::arithmetic::div_mod::lemma_mod_self_0(bs);
    }
}

/// The class lists of `post` equal those of `pre`.
pub open spec fn classes_equal(pre: FixedSizeBlockAllocator, post: FixedSizeBlockAllocator) -> bool {
    &&& post.list_heads@.len() == pre.list_heads@.len()
    &&& forall|i: int|
        0 <= i < pre.list_heads@.len() ==> #[trigger] post.list_heads@[i]@ == pre.list_heads@[i]@
}

/// The class lists of `post` equal those of `pre`, except possibly class `e`.
pub open spec fn classes_equal_except(
    pre: FixedSizeBlockAllocator,
    post: FixedSizeBlockAllocator,
    e: int,
) -> bool {
    &&& post.list_heads@.len() == pre.list_heads@.len()
    &&& forall|i: int|
        0 <= i < pre.list_heads@.len() && i != e ==> #[trigger] post.list_heads@[i]@
            == pre.list_heads@[i]@
}

/// Full effect of `allocate(size, align)`: a request with a class pops the
/// most recently freed block of that class if one exists and otherwise
/// carves a fresh block — class size at class alignment — out of the
/// fallback; an oversized request is delegated to the fallback unchanged.
pub open spec fn fsb_allocate_spec(
    pre: FixedSizeBlockAllocator,
    post: FixedSizeBlockAllocator,
    size: nat,
    align: nat,
    r: Option<usize>,
) -> bool {
    let idx = spec_list_index(size, align);
    let rsv = spec_reserved(size, align);
    if idx >= 0 && pre.class_len(idx) > 0 {
        match r {
            Some(a) => {
                &&& a == pre.class_at(idx, pre.class_len(idx) - 1)
                &&& post.fallback_allocator == pre.fallback_allocator
                &&& classes_equal_except(pre, post, idx)
                &&& post.list_heads@[idx]@ == pre.list_heads@[idx]@.drop_last()
                &&& post.allocated@ == pre.allocated@.insert((a as nat, rsv))
            },
            None => false,
        }
    } else {
        let fsize: nat = if idx >= 0 {
            spec_block_size(idx) as nat
        } else {
            size
        };
        let falign: nat = if idx >= 0 {
            spec_block_size(idx) as nat
        } else {
            align
        };
        &&& ll_allocate_spec(pre.fallback_allocator, post.fallback_allocator, fsize, falign, r)
        &&& classes_equal(pre, post)
        &&& match r {
            Some(a) => post.allocated@ == pre.allocated@.insert((a as nat, rsv)),
            None => post.allocated@ == pre.allocated@,
        }
    }
}

/// Oversize delegation law: a request larger than the largest configured
/// class is routed entirely through the fallback free-list allocator — the
/// fallback performs exactly its own allocation on the unchanged request,
/// and no class list is touched.
pub proof fn lemma_oversize_delegation(
    pre: FixedSizeBlockAllocator,
    post: FixedSizeBlockAllocator,
    size: nat,
    align: nat,
    r: Option<usize>,
)
    requires
        fsb_allocate_spec(pre, post, size, align, r),
        spec_list_index(size, align) == -1,
    ensures
        ll_allocate_spec(pre.fallback_allocator, post.fallback_allocator, size, align, r),
        classes_equal(pre, post),
{
}

/// Full effect of `deallocate(ptr, size, align)`: a block with a class is
/// pushed onto that class's free list in O(1), without any search and
/// without touching the fallback; an oversized block goes back to the
/// fallback.
pub open spec fn fsb_deallocate_spec(
    pre: FixedSizeBlockAllocator,
    post: FixedSizeBlockAllocator,
    ptr: usize,
    size: nat,
    align: nat,
) -> bool {
    let idx = spec_list_index(size, align);
    let rsv = spec_reserved(size, align);
    if idx >= 0 {
        &&& post.fallback_allocator == pre.fallback_allocator
        &&& classes_equal_except(pre, post, idx)
        &&& post.list_heads@[idx]@ == pre.list_heads@[idx]@.push(ptr)
        &&& post.allocated@ == pre.allocated@.remove((ptr as nat, rsv))
    } else {
        &&& ll_deallocate_spec(pre.fallback_allocator, post.fallback_allocator, ptr, size, align)
        &&& classes_equal(pre, post)
        &&& post.allocated@ == pre.allocated@.remove((ptr as nat, rsv))
    }
}

/// A fixed-size-block allocator: one stack of free block addresses per size
/// class — most recently freed last, as the front of the kernel's intrusive
/// list — over a free-list fallback allocator.  `allocated` is the ghost
/// record of the live allocations as `(address, reserved size)`.
pub struct FixedSizeBlockAllocator {
    pub list_heads: Vec<Vec<usize>>,
    pub fallback_allocator: LinkedListAllocator,
    pub allocated: Ghost<Set<(nat, nat)>>,
}

impl FixedSizeBlockAllocator {
    /// Number of free blocks class `i` currently holds.
    pub open spec fn class_len(self, i: int) -> nat {
        self.list_heads@[i]@.len()
    }

    /// Address of the `j`-th free block of class `i`.
    pub open spec fn class_at(self, i: int, j: int) -> nat {
        self.list_heads@[i]@[j] as nat
    }

    /// The region a free block of class `i` occupies in the fallback's
    /// record.
    pub open spec fn class_block(self, i: int, j: int) -> (nat, nat) {
        (self.class_at(i, j), spec_class_reserved(i))
    }

    /// `(i, j)` designates a free block of some class.
    pub open spec fn valid_slot(self, i: int, j: int) -> bool {
        0 <= i < BLOCK_COUNT && 0 <= j < self.class_len(i)
    }

    /// State invariant: the fallback is well-formed; every free class block
    /// is registered in the fallback's allocation record, aligned to its
    /// class size, distinct from every other block, and not itself recorded
    /// as live; live allocations are registered in the fallback's record
    /// too.  Pairwise disjointness of all these regions follows from the
    /// fallback's own invariant.
    pub open spec fn wf(self) -> bool {
        &&& self.fallback_allocator.wf()
        &&& self.list_heads@.len() == BLOCK_COUNT
        &&& forall|i: int, j: int|
            self.valid_slot(i, j) ==> self.fallback_allocator.allocated@.contains(
                #[trigger] self.class_block(i, j),
            )
        &&& forall|i: int, j: int|
            self.valid_slot(i, j) ==> (#[trigger] self.class_at(i, j)) % (
            spec_block_size(i) as nat) == 0
        &&& forall|i: int, j: int, k: int, l: int|
            self.valid_slot(i, j) && self.valid_slot(k, l) && (i != k || j != l)
                ==> #[trigger] self.class_at(i, j) != #[trigger] self.class_at(k, l)
        &&& forall|q: (nat, nat)| #[trigger]
            self.allocated@.contains(q) ==> self.fallback_allocator.allocated@.contains(q)
        &&& forall|i: int, j: int|
            self.valid_slot(i, j) ==> !self.allocated@.contains(#[trigger] self.class_block(i, j))
    }

    /// Creates an empty allocator: every class list empty, the fallback not
    /// yet tied to any heap region.
    pub fn new() -> (r: Self)
        ensures
            r.wf(),
            r.fallback_allocator.heap_start == 0,
            r.fallback_allocator.heap_end == 0,
            r.fallback_allocator.free@.len() == 0,
            r.fallback_allocator.allocated@ == Set::<(nat, nat)>::empty(),
            r.allocated@ == Set::<(nat, nat)>::empty(),
            forall|i: int| 0 <= i < BLOCK_COUNT ==> #[trigger] r.class_len(i) == 0,
    {
        let mut list_heads: Vec<Vec<usize>> = Vec::new();
        let mut i: usize = 0;
        while i < BLOCK_COUNT
            invariant
                i <= BLOCK_COUNT,
                list_heads@.len() == i,
                forall|k: int| 0 <= k < i ==> (#[trigger] list_heads@[k])@.len() == 0,
            decreases BLOCK_COUNT - i,
        {
            list_heads.push(Vec::new());
            i = i + 1;
        }
        FixedSizeBlockAllocator {
            list_heads,
            fallback_allocator: LinkedListAllocator::new(),
            allocated: Ghost(Set::empty()),
        }
    }

    /// Initialize the allocator with the given heap bounds: the whole
    /// region goes to the fallback, and every class list starts empty.
    /// Bootstrap calls this exactly once, before the first allocation.
    pub fn init(&mut self, heap_start: usize, heap_size: usize)
        requires
            old(self).wf(),
            old(self).fallback_allocator.free@.len() == 0,
            old(self).fallback_allocator.allocated@ == Set::<(nat, nat)>::empty(),
            old(self).allocated@ == Set::<(nat, nat)>::empty(),
            forall|i: int| 0 <= i < BLOCK_COUNT ==> #[trigger] old(self).class_len(i) == 0,
            heap_start % 8 == 0,
            heap_size >= NODE_SIZE,
            heap_start + heap_size <= usize::MAX,
        ensures
            final(self).wf(),
            final(self).fallback_allocator.heap_start == heap_start,
            final(self).fallback_allocator.heap_end == heap_start + heap_size,
            final(self).fallback_allocator.free@ =~= seq![
                (crate::allocator::linked_list::ListNode { addr: heap_start, size: heap_size }),
            ],
            final(self).allocated@ == old(self).allocated@,
            classes_equal(*old(self), *final(self)),
    {
        self.fallback_allocator.init(heap_start, heap_size);
        proof {
            assert forall|i: int, j: int| self.valid_slot(i, j) implies false by {
                assert(self.class_len(i) == old(self).class_len(i));
            }
        }
    }

    /// The class of a request, `None` when even the largest class is too
    /// small to host its size and alignment.
    pub fn list_index(size: usize, align: usize) -> (r: Option<usize>)
        ensures
            match r {
                Some(c) => c == spec_list_index(size as nat, align as nat) && c < BLOCK_COUNT,
                None => spec_list_index(size as nat, align as nat) == -1,
            },
    {
        let req: usize = if size >= align {
            size
        } else {
            align
        };
        if req <= 8 {
            Some(0)
        } else if req <= 16 {
            Some(1)
        } else if req <= 32 {
            Some(2)
        } else if req <= 64 {
            Some(3)
        } else if req <= 128 {
            Some(4)
        } else if req <= 256 {
            Some(5)
        } else if req <= 512 {
            Some(6)
        } else if req <= 1024 {
            Some(7)
        } else if req <= 2048 {
            Some(8)
        } else {
            None
        }
    }

    /// The block size of class `i`.
    pub fn block_size(i: usize) -> (r: usize)
        requires
            i < BLOCK_COUNT,
        ensures
            r == spec_block_size(i as int),
    {
        match i {
            0 => 8,
            1 => 16,
            2 => 32,
            3 => 64,
            4 => 128,
            5 => 256,
            6 => 512,
            7 => 1024,
            _ => 2048,
        }
    }

    /// Serves an allocation request: O(1) pop from the matching class's
    /// free list when it has a block; otherwise a fresh class-sized block
    /// carved from the fallback; oversized requests are delegated to the
    /// fallback unchanged.  Fails, leaving the state unchanged, exactly
    /// when the path taken through the fallback finds no fitting region.
    pub fn allocate(&mut self, size: usize, align: usize) -> (r: Option<usize>)
        requires
            old(self).wf(),
            is_pow2(align as nat),
            size + align + NODE_SIZE <= usize::MAX,
        ensures
            final(self).wf(),
            fsb_allocate_spec(*old(self), *final(self), size as nat, align as nat, r),
            match r {
                Some(a) => {
                    &&& a % align == 0
                    &&& old(self).fallback_allocator.heap_start <= a
                    &&& a + size <= old(self).fallback_allocator.heap_end
                    &&& forall|q: (nat, nat)| #[trigger]
                        old(self).allocated@.contains(q) ==> regions_disjoint(
                            a as nat,
                            spec_reserved(size as nat, align as nat),
                            q.0,
                            q.1,
                        )
                    &&& final(self).allocated@ == old(self).allocated@.insert(
                        (a as nat, spec_reserved(size as nat, align as nat)),
                    )
                },
                None => {
                    &&& final(self).fallback_allocator == old(self).fallback_allocator
                    &&& classes_equal(*old(self), *final(self))
                    &&& final(self).allocated@ == old(self).allocated@
                },
            },
    {
        proof {
            lemma_small_pow2();
            lemma_list_index_props(size as nat, align as nat);
        }
        match Self::list_index(size, align) {
            Some(index) => {
                proof {
                    lemma_class_reserved(index as int);
                }
                let mut class_list = self.list_heads.remove(index);
                if class_list.len() > 0 {
                    let a = class_list.pop().unwrap();
                    self.list_heads.insert(index, class_list);
                    proof {
                        let pre = *old(self);
                        let idx = index as int;
                        let rsv = spec_reserved(size as nat, align as nat);
                        let newq = (a as nat, rsv);
                        self.allocated@ = self.allocated@.insert(newq);
                        assert forall|i: int|
                            0 <= i < BLOCK_COUNT && i != idx implies #[trigger] self.list_heads@[i]@
                            == pre.list_heads@[i]@ by {
                            if i < idx {
                            } else {
                                assert(self.list_heads@[i] == pre.list_heads@.remove(idx)[i - 1]);
                            }
                        }
                        assert(self.list_heads@[idx]@ == pre.list_heads@[idx]@.drop_last());
                        // the popped block was a valid slot of the old state
                        assert(pre.valid_slot(idx, pre.class_len(idx) - 1));
                        assert(pre.class_block(idx, pre.class_len(idx) - 1) == newq);
                        self.lemma_wf_after_class_pop(pre, idx, newq);
                        assert(a as nat % (spec_block_size(idx) as nat) == 0);
                        lemma_pow2_is_pos(align as nat);
                        lemma_pow2_divides(align as nat, spec_block_size(idx) as nat);
                        lemma_divides_transitive(a as int, align as int, spec_block_size(idx));
                        // in-heap and disjointness facts come from the
                        // fallback's record
                        assert(pre.fallback_allocator.allocated@.contains(newq));
                        assert(pre.fallback_allocator.alloc_ok(newq));
                        assert forall|q: (nat, nat)| #[trigger]
                            pre.allocated@.contains(q) implies regions_disjoint(
                            a as nat,
                            rsv,
                            q.0,
                            q.1,
                        ) by {
                            assert(pre.fallback_allocator.allocated@.contains(q));
                            assert(!pre.allocated@.contains(newq));
                            assert(q != newq);
                        }
                    }
                    Some(a)
                } else {
                    self.list_heads.insert(index, class_list);
                    proof {
                        assert forall|i: int|
                            0 <= i < BLOCK_COUNT implies #[trigger] self.list_heads@[i]@
                            == old(self).list_heads@[i]@ by {
                            let idx = index as int;
                            if i < idx {
                            } else if i == idx {
                            } else {
                                assert(self.list_heads@[i] == old(
                                    self,
                                ).list_heads@.remove(idx)[i - 1]);
                            }
                        }
                    }
                    let bs: usize = Self::block_size(index);
                    let fb = self.fallback_allocator.allocate(bs, bs);
                    match fb {
                        Some(a) => {
                            proof {
                                let rsv = spec_reserved(size as nat, align as nat);
                                let newq = (a as nat, rsv);
                                self.allocated@ = self.allocated@.insert(newq);
                                self.lemma_wf_after_carve(*old(self), index as int, newq);
                                lemma_pow2_is_pos(align as nat);
                                lemma_pow2_divides(
                                    align as nat,
                                    spec_block_size(index as int) as nat,
                                );
                                lemma_divides_transitive(
                                    a as int,
                                    align as int,
                                    spec_block_size(index as int),
                                );
                            }
                            Some(a)
                        },
                        None => {
                            proof {
                                self.lemma_wf_transfer(*old(self));
                            }
                            None
                        },
                    }
                }
            },
            None => {
                proof {
                    lemma_adj_props(size as nat, align as nat);
                }
                let fb = self.fallback_allocator.allocate(size, align);
                match fb {
                    Some(a) => {
                        proof {
                            let rsv = spec_reserved(size as nat, align as nat);
                            let newq = (a as nat, rsv);
                            self.allocated@ = self.allocated@.insert(newq);
                            self.lemma_wf_after_oversize(*old(self), newq);
                        }
                        Some(a)
                    },
                    None => None,
                }
            },
        }
    }

    /// Returns a block: pushed onto its class's free list in O(1), without
    /// touching the fallback; an oversized block goes back to the fallback.
    /// The block must be one that `allocate` returned, with the same size
    /// and alignment it was requested with.
    pub fn deallocate(&mut self, ptr: usize, size: usize, align: usize)
        requires
            old(self).wf(),
            is_pow2(align as nat),
            size + align + NODE_SIZE <= usize::MAX,
            old(self).allocated@.contains(
                (ptr as nat, spec_reserved(size as nat, align as nat)),
            ),
            spec_list_index(size as nat, align as nat) >= 0 ==> (ptr as nat) % (spec_block_size(
                spec_list_index(size as nat, align as nat),
            ) as nat) == 0,
        ensures
            final(self).wf(),
            fsb_deallocate_spec(*old(self), *final(self), ptr, size as nat, align as nat),
    {
        proof {
            lemma_small_pow2();
            lemma_list_index_props(size as nat, align as nat);
        }
        match Self::list_index(size, align) {
            Some(index) => {
                let mut class_list = self.list_heads.remove(index);
                class_list.push(ptr);
                self.list_heads.insert(index, class_list);
                proof {
                    let pre = *old(self);
                    let idx = index as int;
                    let rsv = spec_reserved(size as nat, align as nat);
                    let q = (ptr as nat, rsv);
                    self.allocated@ = self.allocated@.remove(q);
                    assert forall|i: int|
                        0 <= i < BLOCK_COUNT && i != idx implies #[trigger] self.list_heads@[i]@
                        == pre.list_heads@[i]@ by {
                        if i < idx {
                        } else {
                            assert(self.list_heads@[i] == pre.list_heads@.remove(idx)[i - 1]);
                        }
                    }
                    assert(self.list_heads@[idx]@ == pre.list_heads@[idx]@.push(ptr));
                    lemma_class_reserved(idx);
                    self.lemma_wf_after_class_push(pre, idx, q);
                }
            },
            None => {
                proof {
                    lemma_adj_props(size as nat, align as nat);
                    let ghost rsv = spec_reserved(size as nat, align as nat);
                    self.allocated@ = self.allocated@.remove((ptr as nat, rsv));
                }
                self.fallback_allocator.deallocate(ptr, size, align);
                proof {
                    self.lemma_wf_after_oversize_free(
                        *old(self),
                        (ptr as nat, spec_reserved(size as nat, align as nat)),
                    );
                }
            },
        }
    }

    /// The invariant carries over to a state with the same fallback, the
    /// same allocation record, and class lists equal element by element.
    proof fn lemma_wf_transfer(self, pre: FixedSizeBlockAllocator)
        requires
            pre.wf(),
            self.fallback_allocator == pre.fallback_allocator,
            self.allocated@ == pre.allocated@,
            self.list_heads@.len() == BLOCK_COUNT,
            forall|i: int|
                0 <= i < BLOCK_COUNT ==> #[trigger] self.list_heads@[i]@ == pre.list_heads@[i]@,
        ensures
            self.wf(),
    {
        assert forall|i: int, j: int| self.valid_slot(i, j) implies {
            &&& self.fallback_allocator.allocated@.contains(#[trigger] self.class_block(i, j))
            &&& self.class_at(i, j) % (spec_block_size(i) as nat) == 0
            &&& !self.allocated@.contains(self.class_block(i, j))
        } by {
            assert(pre.valid_slot(i, j));
            assert(self.class_at(i, j) == pre.class_at(i, j));
            assert(pre.fallback_allocator.allocated@.contains(pre.class_block(i, j)));
            assert(pre.class_at(i, j) % (spec_block_size(i) as nat) == 0);
            assert(!pre.allocated@.contains(pre.class_block(i, j)));
        }
        assert forall|i: int, j: int| self.valid_slot(i, j) implies (#[trigger] self.class_at(
            i,
            j,
        )) % (spec_block_size(i) as nat) == 0 by {
            assert(pre.valid_slot(i, j));
            assert(self.class_at(i, j) == pre.class_at(i, j));
            assert(pre.class_at(i, j) % (spec_block_size(i) as nat) == 0);
        }
        assert forall|i: int, j: int, k: int, l: int|
            self.valid_slot(i, j) && self.valid_slot(k, l) && (i != k || j != l)
            implies #[trigger] self.class_at(i, j) != #[trigger] self.class_at(k, l) by {
            assert(pre.valid_slot(i, j));
            assert(pre.valid_slot(k, l));
            assert(self.class_at(i, j) == pre.class_at(i, j));
            assert(self.class_at(k, l) == pre.class_at(k, l));
            assert(pre.class_at(i, j) != pre.class_at(k, l));
        }
    }

    /// Invariant maintenance after popping block `newq` from class `idx`.
    proof fn lemma_wf_after_class_pop(
        self,
        pre: FixedSizeBlockAllocator,
        idx: int,
        newq: (nat, nat),
    )
        requires
            pre.wf(),
            0 <= idx < BLOCK_COUNT,
            pre.class_len(idx) > 0,
            newq == pre.class_block(idx, pre.class_len(idx) - 1),
            self.fallback_allocator == pre.fallback_allocator,
            self.list_heads@.len() == BLOCK_COUNT,
            self.list_heads@[idx]@ == pre.list_heads@[idx]@.drop_last(),
            forall|i: int|
                0 <= i < BLOCK_COUNT && i != idx ==> #[trigger] self.list_heads@[i]@
                    == pre.list_heads@[i]@,
            self.allocated@ == pre.allocated@.insert(newq),
        ensures
            self.wf(),
    {
        assert forall|i: int, j: int| self.valid_slot(i, j) implies {
            &&& self.fallback_allocator.allocated@.contains(#[trigger] self.class_block(i, j))
            &&& self.class_at(i, j) % (spec_block_size(i) as nat) == 0
            &&& pre.valid_slot(i, j)
            &&& self.class_at(i, j) == pre.class_at(i, j)
        } by {
            assert(pre.valid_slot(i, j));
            assert(self.class_at(i, j) == pre.class_at(i, j));
            assert(pre.fallback_allocator.allocated@.contains(pre.class_block(i, j)));
            assert(pre.class_at(i, j) % (spec_block_size(i) as nat) == 0);
        }
        assert forall|i: int, j: int| self.valid_slot(i, j) implies (#[trigger] self.class_at(
            i,
            j,
        )) % (spec_block_size(i) as nat) == 0 by {
            assert(pre.valid_slot(i, j));
            assert(self.class_at(i, j) == pre.class_at(i, j));
            assert(pre.class_at(i, j) % (spec_block_size(i) as nat) == 0);
        }
        assert forall|i: int, j: int, k: int, l: int|
            self.valid_slot(i, j) && self.valid_slot(k, l) && (i != k || j != l)
            implies #[trigger] self.class_at(i, j) != #[trigger] self.class_at(k, l) by {
            assert(pre.valid_slot(i, j));
            assert(pre.valid_slot(k, l));
            assert(self.class_at(i, j) == pre.class_at(i, j));
            assert(self.class_at(k, l) == pre.class_at(k, l));
            assert(pre.class_at(i, j) != pre.class_at(k, l));
        }
        assert forall|i: int, j: int| self.valid_slot(i, j) implies !self.allocated@.contains(
            #[trigger] self.class_block(i, j),
        ) by {
            assert(pre.valid_slot(i, j));
            assert(self.class_at(i, j) == pre.class_at(i, j));
            assert(!pre.allocated@.contains(pre.class_block(i, j)));
            // the freshly popped block is not among the remaining slots:
            // addresses of distinct slots differ
            if self.class_block(i, j) == newq {
                assert(pre.class_at(i, j) == pre.class_at(idx, pre.class_len(idx) - 1));
                assert(i == idx && j == pre.class_len(idx) - 1);
                assert(false);
            }
        }
        assert(pre.valid_slot(idx, pre.class_len(idx) - 1));
        assert forall|q: (nat, nat)| #[trigger] self.allocated@.contains(q)
            implies self.fallback_allocator.allocated@.contains(q) by {
            if q == newq {
                assert(pre.fallback_allocator.allocated@.contains(
                    pre.class_block(idx, pre.class_len(idx) - 1),
                ));
            } else {
                assert(pre.allocated@.contains(q));
            }
        }
    }

    /// Invariant maintenance after carving fresh block `newq` for a class
    /// (or serving an oversized request) from the fallback; `newq` is the
    /// region the fallback reserved.
    proof fn lemma_wf_after_carve(
        self,
        pre: FixedSizeBlockAllocator,
        idx: int,
        newq: (nat, nat),
    )
        requires
            pre.wf(),
            self.list_heads@.len() == BLOCK_COUNT,
            forall|i: int|
                0 <= i < BLOCK_COUNT ==> #[trigger] self.list_heads@[i]@ == pre.list_heads@[i]@,
            newq.1 >= 1,
            self.fallback_allocator.allocated@ == pre.fallback_allocator.allocated@.insert(newq),
            self.fallback_allocator.wf(),
            forall|q: (nat, nat)| #[trigger]
                pre.fallback_allocator.allocated@.contains(q) ==> regions_disjoint(
                    newq.0,
                    newq.1,
                    q.0,
                    q.1,
                ),
            self.allocated@ == pre.allocated@.insert(newq),
        ensures
            self.wf(),
            forall|q: (nat, nat)| #[trigger]
                pre.allocated@.contains(q) ==> regions_disjoint(newq.0, newq.1, q.0, q.1),
    {
        assert forall|i: int, j: int| self.valid_slot(i, j) implies {
            &&& self.fallback_allocator.allocated@.contains(#[trigger] self.class_block(i, j))
            &&& self.class_at(i, j) % (spec_block_size(i) as nat) == 0
            &&& pre.valid_slot(i, j)
            &&& self.class_block(i, j) == pre.class_block(i, j)
        } by {
            assert(pre.valid_slot(i, j));
            assert(self.class_at(i, j) == pre.class_at(i, j));
            assert(pre.fallback_allocator.allocated@.contains(pre.class_block(i, j)));
            assert(pre.class_at(i, j) % (spec_block_size(i) as nat) == 0);
        }
        assert forall|i: int, j: int| self.valid_slot(i, j) implies (#[trigger] self.class_at(
            i,
            j,
        )) % (spec_block_size(i) as nat) == 0 by {
            assert(pre.valid_slot(i, j));
            assert(self.class_at(i, j) == pre.class_at(i, j));
            assert(pre.class_at(i, j) % (spec_block_size(i) as nat) == 0);
        }
        assert forall|i: int, j: int, k: int, l: int|
            self.valid_slot(i, j) && self.valid_slot(k, l) && (i != k || j != l)
            implies #[trigger] self.class_at(i, j) != #[trigger] self.class_at(k, l) by {
            assert(pre.valid_slot(i, j));
            assert(pre.valid_slot(k, l));
            assert(self.class_at(i, j) == pre.class_at(i, j));
            assert(self.class_at(k, l) == pre.class_at(k, l));
            assert(pre.class_at(i, j) != pre.class_at(k, l));
        }
        assert forall|i: int, j: int| self.valid_slot(i, j) implies !self.allocated@.contains(
            #[trigger] self.class_block(i, j),
        ) by {
            assert(pre.valid_slot(i, j));
            assert(self.class_at(i, j) == pre.class_at(i, j));
            assert(!pre.allocated@.contains(pre.class_block(i, j)));
            if self.class_block(i, j) == newq {
                // the fallback's fresh region is disjoint from every region
                // it had recorded, the class block among them
                assert(pre.fallback_allocator.allocated@.contains(pre.class_block(i, j)));
                assert(regions_disjoint(newq.0, newq.1, newq.0, newq.1));
                assert(false);
            }
        }
        assert forall|q: (nat, nat)| #[trigger] self.allocated@.contains(q)
            implies self.fallback_allocator.allocated@.contains(q) by {
            if q != newq {
                assert(pre.allocated@.contains(q));
                assert(pre.fallback_allocator.allocated@.contains(q));
            }
        }
    }

    /// Invariant maintenance for an oversized allocation: same as carving,
    /// with no class involved.
    proof fn lemma_wf_after_oversize(
        self,
        pre: FixedSizeBlockAllocator,
        newq: (nat, nat),
    )
        requires
            pre.wf(),
            newq.1 >= 1,
            self.list_heads@ == pre.list_heads@,
            self.fallback_allocator.allocated@ == pre.fallback_allocator.allocated@.insert(newq),
            self.fallback_allocator.wf(),
            forall|q: (nat, nat)| #[trigger]
                pre.fallback_allocator.allocated@.contains(q) ==> regions_disjoint(
                    newq.0,
                    newq.1,
                    q.0,
                    q.1,
                ),
            self.allocated@ == pre.allocated@.insert(newq),
        ensures
            self.wf(),
            forall|q: (nat, nat)| #[trigger]
                pre.allocated@.contains(q) ==> regions_disjoint(newq.0, newq.1, q.0, q.1),
    {
        self.lemma_wf_after_carve(pre, 0, newq);
    }

    /// Invariant maintenance after pushing block `q` onto class `idx`.
    proof fn lemma_wf_after_class_push(
        self,
        pre: FixedSizeBlockAllocator,
        idx: int,
        q: (nat, nat),
    )
        requires
            pre.wf(),
            0 <= idx < BLOCK_COUNT,
            pre.allocated@.contains(q),
            q.1 == spec_class_reserved(idx),
            q.1 >= 1,
            q.0 % (spec_block_size(idx) as nat) == 0,
            q.0 <= usize::MAX,
            self.fallback_allocator == pre.fallback_allocator,
            self.list_heads@.len() == BLOCK_COUNT,
            self.list_heads@[idx]@ == pre.list_heads@[idx]@.push(q.0 as usize),
            forall|i: int|
                0 <= i < BLOCK_COUNT && i != idx ==> #[trigger] self.list_heads@[i]@
                    == pre.list_heads@[i]@,
            self.allocated@ == pre.allocated@.remove(q),
        ensures
            self.wf(),
    {
        let new_j = pre.class_len(idx) as int;
        assert(self.class_block(idx, new_j) == q);
        assert forall|i: int, j: int| self.valid_slot(i, j) implies {
            &&& self.fallback_allocator.allocated@.contains(#[trigger] self.class_block(i, j))
            &&& self.class_at(i, j) % (spec_block_size(i) as nat) == 0
        } by {
            if i == idx && j == new_j {
                assert(pre.fallback_allocator.allocated@.contains(q));
            } else {
                assert(pre.valid_slot(i, j));
                assert(self.class_at(i, j) == pre.class_at(i, j));
                assert(pre.fallback_allocator.allocated@.contains(pre.class_block(i, j)));
                assert(pre.class_at(i, j) % (spec_block_size(i) as nat) == 0);
            }
        }
        assert forall|i: int, j: int| self.valid_slot(i, j) implies (#[trigger] self.class_at(
            i,
            j,
        )) % (spec_block_size(i) as nat) == 0 by {
            if i == idx && j == new_j {
            } else {
                assert(pre.valid_slot(i, j));
                assert(self.class_at(i, j) == pre.class_at(i, j));
                assert(pre.class_at(i, j) % (spec_block_size(i) as nat) == 0);
            }
        }
        // the pushed address differs from every block already free: its
        // region is live in the fallback's record, theirs are disjoint
        // from every distinct recorded region
        assert forall|i: int, j: int|
            self.valid_slot(i, j) && (i != idx || j != new_j) implies #[trigger] self.class_at(
            i,
            j,
        ) != q.0 by {
            assert(pre.valid_slot(i, j));
            assert(self.class_at(i, j) == pre.class_at(i, j));
            let b = pre.class_block(i, j);
            assert(pre.fallback_allocator.allocated@.contains(b));
            assert(pre.fallback_allocator.allocated@.contains(q));
            assert(pre.fallback_allocator.alloc_ok(b));
            assert(pre.fallback_allocator.alloc_ok(q));
            if b == q {
                assert(!pre.allocated@.contains(pre.class_block(i, j)));
                assert(false);
            } else {
                if pre.class_at(i, j) == q.0 {
                    assert(regions_disjoint(b.0, b.1, q.0, q.1));
                    assert(b.1 >= NODE_SIZE);
                    assert(q.1 >= NODE_SIZE);
                    assert(false);
                }
            }
        }
        assert forall|i: int, j: int, k: int, l: int|
            self.valid_slot(i, j) && self.valid_slot(k, l) && (i != k || j != l)
            implies #[trigger] self.class_at(i, j) != #[trigger] self.class_at(k, l) by {
            if (i == idx && j == new_j) {
                assert(self.class_at(k, l) != q.0);
            } else if (k == idx && l == new_j) {
                assert(self.class_at(i, j) != q.0);
            } else {
                assert(pre.class_at(i, j) != pre.class_at(k, l));
            }
        }
        assert forall|i: int, j: int| self.valid_slot(i, j) implies !self.allocated@.contains(
            #[trigger] self.class_block(i, j),
        ) by {
            if i == idx && j == new_j {
            } else {
                assert(pre.valid_slot(i, j));
                assert(self.class_at(i, j) == pre.class_at(i, j));
                assert(!pre.allocated@.contains(pre.class_block(i, j)));
            }
        }
        assert forall|p: (nat, nat)| #[trigger] self.allocated@.contains(p)
            implies self.fallback_allocator.allocated@.contains(p) by {
            assert(pre.allocated@.contains(p));
        }
    }

    /// Invariant maintenance after handing block `q` back to the fallback.
    proof fn lemma_wf_after_oversize_free(self, pre: FixedSizeBlockAllocator, q: (nat, nat))
        requires
            pre.wf(),
            self.list_heads@ == pre.list_heads@,
            self.fallback_allocator.wf(),
            self.fallback_allocator.allocated@ == pre.fallback_allocator.allocated@.remove(q),
            pre.allocated@.contains(q),
            self.allocated@ == pre.allocated@.remove(q),
        ensures
            self.wf(),
    {
        assert forall|i: int, j: int| self.valid_slot(i, j) implies {
            &&& self.fallback_allocator.allocated@.contains(#[trigger] self.class_block(i, j))
            &&& self.class_at(i, j) % (spec_block_size(i) as nat) == 0
            &&& !self.allocated@.contains(self.class_block(i, j))
        } by {
            assert(pre.valid_slot(i, j));
            assert(self.class_block(i, j) == pre.class_block(i, j));
            assert(pre.fallback_allocator.allocated@.contains(pre.class_block(i, j)));
            assert(pre.class_at(i, j) % (spec_block_size(i) as nat) == 0);
            assert(!pre.allocated@.contains(pre.class_block(i, j)));
            assert(pre.class_block(i, j) != q);
        }
        assert forall|i: int, j: int| self.valid_slot(i, j) implies (#[trigger] self.class_at(
            i,
            j,
        )) % (spec_block_size(i) as nat) == 0 by {
            assert(pre.valid_slot(i, j));
            assert(self.class_at(i, j) == pre.class_at(i, j));
            assert(pre.class_at(i, j) % (spec_block_size(i) as nat) == 0);
        }
        assert forall|i: int, j: int, k: int, l: int|
            self.valid_slot(i, j) && self.valid_slot(k, l) && (i != k || j != l)
            implies #[trigger] self.class_at(i, j) != #[trigger] self.class_at(k, l) by {
            assert(pre.valid_slot(i, j));
            assert(pre.valid_slot(k, l));
            assert(pre.class_at(i, j) != pre.class_at(k, l));
        }
        assert forall|p: (nat, nat)| #[trigger] self.allocated@.contains(p)
            implies self.fallback_allocator.allocated@.contains(p) by {
            assert(pre.allocated@.contains(p));
            assert(p != q);
            assert(pre.fallback_allocator.allocated@.contains(p));
        }
    }
}

} // verus!
