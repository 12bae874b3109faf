//! Heap constants, alignment arithmetic, and the bootstrap page-range
//! computation shared by every allocation strategy.

use vstd::prelude::*;
use vstd::arithmetic::div_mod::{
    lemma_fundamental_div_mod, lemma_mod_multiples_basic, lemma_div_is_ordered,
};
use vstd::arithmetic::power2::{pow2, lemma_pow2_adds, lemma_pow2_pos, lemma2_to64};
use vstd::arithmetic::mul::lemma_mul_is_associative;

pub mod bump;
pub mod fixed_size_block;
pub mod linked_list;

verus! {

/// First virtual address of the kernel heap.  Virtual addresses are 64 bits
/// wide on the target; on a host whose `usize` is as wide, the value can be
/// used as an address directly.
pub const HEAP_START: u64 = 0x4444_4444_0000;

/// Size of the kernel heap in bytes (100 KiB).
pub const HEAP_SIZE: usize = 100 * 1024;

/// Size of one page of virtual memory in bytes.
pub const PAGE_SIZE: usize = 4096;

/// `n` is a power of two.
pub open spec fn is_pow2(n: nat) -> bool {
    exists|k: nat| n == pow2(k)
}

/// The smallest multiple of `align` that is at least `addr`.
pub open spec fn spec_align_up(addr: int, align: int) -> int
    recommends
        align >= 1,
{
    if addr % align == 0 {
        addr
    } else {
        addr + align - addr % align
    }
}

/// Basic consequences of rounding an address up to an alignment boundary:
/// the result is aligned, no smaller than `addr`, and less than one whole
/// alignment step beyond `addr`.
pub proof fn lemma_align_up_props(addr: int, align: int)
    requires
        addr >= 0,
        align >= 1,
    ensures
        spec_align_up(addr, align) % align == 0,
        addr <= spec_align_up(addr, align) < addr + align,
        addr % align == 0 ==> spec_align_up(addr, align) == addr,
{
    lemma_fundamental_div_mod(addr, align);
    if addr % align != 0 {
        let r = addr % align;
        assert(0 < r < align);
        let up = addr + align - r;
        assert(up == align * (addr / align) + align);
        assert(up == align * (addr / align + 1)) by {
            assert(align * (addr / align + 1) == align * (addr / align) + align)
                by (nonlinear_arith);
        }
        lemma_mod_multiples_basic(addr / align + 1, align);
        assert((align * (addr / align + 1)) % align == 0);
    }
}

/// A power of two is positive.
pub proof fn lemma_pow2_is_pos(n: nat)
    requires
        is_pow2(n),
    ensures
        n >= 1,
{
    let k = choose|k: nat| n == pow2(k);
    lemma_pow2_pos(k);
}

/// The small powers of two that the allocator's size classes and node
/// alignment use.
pub proof fn lemma_small_pow2()
    ensures
        is_pow2(1),
        is_pow2(2),
        is_pow2(4),
        is_pow2(8),
        is_pow2(16),
        is_pow2(32),
        is_pow2(64),
        is_pow2(128),
        is_pow2(256),
        is_pow2(512),
        is_pow2(1024),
        is_pow2(2048),
        is_pow2(4096),
{
    lemma2_to64();
    assert(is_pow2(1)) by { lemma2_to64(); assert(pow2(0) == 1) by { lemma2_to64() } }
    assert(pow2(0) == 1 && pow2(1) == 2 && pow2(2) == 4 && pow2(3) == 8 && pow2(4) == 16
        && pow2(5) == 32 && pow2(6) == 64 && pow2(7) == 128 && pow2(8) == 256 && pow2(9) == 512
        && pow2(10) == 1024 && pow2(11) == 2048 && pow2(12) == 4096) by { lemma2_to64() }
}

/// The smaller of two powers of two divides the larger.
pub proof fn lemma_pow2_divides(a: nat, b: nat)
    requires
        is_pow2(a),
        is_pow2(b),
        a <= b,
    ensures
        b % a == 0,
{
    let i = choose|i: nat| a == pow2(i);
    let j = choose|j: nat| b == pow2(j);
    lemma_pow2_pos(i);
    lemma_pow2_pos(j);
    if j < i {
        vstd::arithmetic::power2::lemma_pow2_strictly_increases(j, i);
        assert(false);
    }
    lemma_pow2_adds(i, (j - i) as nat);
    assert(b == a * pow2((j - i) as nat));
    lemma_mod_multiples_basic(pow2((j - i) as nat) as int, a as int);
    assert((a as int * pow2((j - i) as nat) as int) % (a as int) == (pow2(
        (j - i) as nat,
    ) as int * a as int) % (a as int)) by (nonlinear_arith);
}

/// Divisibility is transitive: a multiple of `b` is a multiple of every
/// divisor `a` of `b`.
pub proof fn lemma_divides_transitive(x: int, a: int, b: int)
    requires
        a >= 1,
        b >= 1,
        x >= 0,
        x % b == 0,
        b % a == 0,
    ensures
        x % a == 0,
{
    lemma_fundamental_div_mod(x, b);
    lemma_fundamental_div_mod(b, a);
    let q = x / b;
    let p = b / a;
    assert(x == (a * p) * q);
    assert((a * p) * q == a * (p * q)) by { lemma_mul_is_associative(a, p, q) }
    lemma_mod_multiples_basic(p * q, a);
    assert((a * (p * q)) % a == 0);
}

/// Sums of multiples of `a` are multiples of `a`.
pub proof fn lemma_mod_sum_zero(x: int, y: int, a: int)
    requires
        a >= 1,
        x >= 0,
        y >= 0,
        x % a == 0,
        y % a == 0,
    ensures
        (x + y) % a == 0,
{
    lemma_fundamental_div_mod(x, a);
    lemma_fundamental_div_mod(y, a);
    assert(x + y == a * (x / a) + a * (y / a));
    assert(a * (x / a) + a * (y / a) == a * (x / a + y / a)) by (nonlinear_arith);
    lemma_mod_multiples_basic(x / a + y / a, a);
}

/// Align the given address upwards to `align`. Requires that `align` is a
/// power of two and that the rounded-up address still fits in the address
/// space.
pub fn align_up(addr: usize, align: usize) -> (r: usize)
    requires
        is_pow2(align as nat),
        spec_align_up(addr as int, align as int) <= usize::MAX,
    ensures
        r == spec_align_up(addr as int, align as int),
        r % align == 0,
        addr <= r < addr + align,
{
    proof {
        lemma_pow2_is_pos(align as nat);
        lemma_align_up_props(addr as int, align as int);
    }
    let rem: usize = addr % align;
    if rem == 0 {
        addr
    } else {
        addr + (align - rem)
    }
}

/// Page numbers of the first and last page overlapping the heap range
/// `[heap_start, heap_start + heap_size)`; backing each page of this
/// inclusive range with a mapped frame covers the whole heap.
pub fn heap_page_range(heap_start: usize, heap_size: usize) -> (r: (usize, usize))
    requires
        heap_size >= 1,
        heap_start + heap_size - 1 <= usize::MAX,
    ensures
        r.0 == heap_start as int / PAGE_SIZE as int,
        r.1 == (heap_start + heap_size - 1) / PAGE_SIZE as int,
        r.0 <= r.1,
        forall|a: int|
            heap_start <= a < heap_start + heap_size ==> r.0 <= #[trigger] (a / PAGE_SIZE as int)
                <= r.1,
{
    let first: usize = heap_start / PAGE_SIZE;
    let last: usize = (heap_start + (heap_size - 1)) / PAGE_SIZE;
    proof {
        lemma_div_is_ordered(heap_start as int, heap_start + heap_size - 1, PAGE_SIZE as int);
        assert forall|a: int| heap_start <= a < heap_start + heap_size implies
            first <= #[trigger] (a / PAGE_SIZE as int) <= last by {
            lemma_div_is_ordered(heap_start as int, a, PAGE_SIZE as int);
            lemma_div_is_ordered(a, heap_start + heap_size - 1, PAGE_SIZE as int);
        }
    }
    (first, last)
}

} // verus!
