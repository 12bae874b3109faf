use rust_os::allocator::fixed_size_block::FixedSizeBlockAllocator;
use rust_os::allocator::linked_list::ListNode;

#[test]
fn block_size_table() {
    let expected = [8, 16, 32, 64, 128, 256, 512, 1024, 2048];
    for (i, want) in expected.iter().enumerate() {
        assert_eq!(FixedSizeBlockAllocator::block_size(i), *want);
    }
}

#[test]
fn class_selection_picks_smallest_fitting_class() {
    assert_eq!(FixedSizeBlockAllocator::list_index(1, 1), Some(0));
    assert_eq!(FixedSizeBlockAllocator::list_index(8, 1), Some(0));
    assert_eq!(FixedSizeBlockAllocator::list_index(10, 1), Some(1));
    assert_eq!(FixedSizeBlockAllocator::list_index(10, 32), Some(2));
    assert_eq!(FixedSizeBlockAllocator::list_index(2048, 1), Some(8));
    assert_eq!(FixedSizeBlockAllocator::list_index(2049, 1), None);
    assert_eq!(FixedSizeBlockAllocator::list_index(16, 4096), None);
}

#[test]
fn ten_byte_request_served_from_sixteen_byte_class() {
    // a 10-byte request falls in the 16-byte class; after freeing it, a
    // second 10-byte request is served from that class's free list without
    // touching the fallback
    let mut f = FixedSizeBlockAllocator::new();
    f.init(0x10000, 4096);
    let a1 = f.allocate(10, 1).unwrap();
    assert_eq!(a1, 0x10000);
    assert_eq!(a1 % 16, 0);
    f.deallocate(a1, 10, 1);
    assert_eq!(f.list_heads[1], vec![0x10000]);
    let fallback_before = f.fallback_allocator.free.clone();
    let a2 = f.allocate(10, 1).unwrap();
    assert_eq!(a2, a1);
    assert_eq!(f.fallback_allocator.free, fallback_before);
    assert!(f.list_heads[1].is_empty());
}

#[test]
fn empty_class_carves_fresh_block_from_fallback() {
    let mut f = FixedSizeBlockAllocator::new();
    f.init(0x10000, 4096);
    // two requests of the 32-byte class with nothing freed yet: both are
    // carved from the fallback, 32 bytes at 32-byte alignment each
    let x = f.allocate(20, 4).unwrap();
    let y = f.allocate(20, 4).unwrap();
    assert_eq!(x, 0x10000);
    assert_eq!(y, 0x10020);
    assert_eq!(x % 32, 0);
    assert_eq!(y % 32, 0);
}

#[test]
fn class_free_list_is_reused_most_recently_freed_first() {
    let mut f = FixedSizeBlockAllocator::new();
    f.init(0x10000, 4096);
    let x = f.allocate(20, 4).unwrap();
    let y = f.allocate(20, 4).unwrap();
    f.deallocate(x, 20, 4);
    f.deallocate(y, 20, 4);
    assert_eq!(f.list_heads[2], vec![x, y]);
    // the most recently freed block comes back first
    assert_eq!(f.allocate(20, 4), Some(y));
    assert_eq!(f.allocate(20, 4), Some(x));
}

#[test]
fn oversize_request_is_delegated_to_fallback() {
    // a request larger than the largest class bypasses the classes and
    // exercises the fallback's first-fit search and split directly
    let mut f = FixedSizeBlockAllocator::new();
    f.init(0x10000, 8192);
    let p = f.allocate(3000, 8).unwrap();
    assert_eq!(p, 0x10000);
    assert_eq!(
        f.fallback_allocator.free,
        vec![ListNode { addr: 0x10000 + 3000, size: 8192 - 3000 }]
    );
    for list in f.list_heads.iter() {
        assert!(list.is_empty());
    }
    // freeing it goes back to the fallback too, as a front node
    f.deallocate(p, 3000, 8);
    assert_eq!(f.fallback_allocator.free[0], ListNode { addr: 0x10000, size: 3000 });
    for list in f.list_heads.iter() {
        assert!(list.is_empty());
    }
}

#[test]
fn large_alignment_within_class_range() {
    let mut f = FixedSizeBlockAllocator::new();
    f.init(0x10000, 4096);
    // alignment dominates the class choice: 5 bytes at 512 alignment go
    // to the 512-byte class
    let p = f.allocate(5, 512).unwrap();
    assert_eq!(p % 512, 0);
    f.deallocate(p, 5, 512);
    assert_eq!(f.list_heads[6], vec![p]);
}

#[test]
fn allocation_fails_when_fallback_is_exhausted() {
    let mut f = FixedSizeBlockAllocator::new();
    f.init(0x10000, 64);
    // the 64-byte heap cannot host a 128-byte class block
    assert_eq!(f.allocate(100, 1), None);
    // nor an oversized request
    assert_eq!(f.allocate(4000, 1), None);
    // but a small class block fits
    let p = f.allocate(8, 1).unwrap();
    assert_eq!(p, 0x10000);
}

#[test]
fn distinct_allocations_do_not_overlap() {
    // a mixed run of class and oversize allocations: all returned ranges
    // are pairwise disjoint
    let mut f = FixedSizeBlockAllocator::new();
    f.init(0x10000, 16384);
    let mut live: Vec<(usize, usize)> = Vec::new();
    let requests = [(10usize, 1usize), (100, 8), (3000, 8), (32, 32), (500, 4), (2048, 1)];
    for (size, align) in requests.iter() {
        let p = f.allocate(*size, *align).unwrap();
        assert_eq!(p % align, 0);
        for (q, qsize) in live.iter() {
            assert!(p + size <= *q || q + qsize <= p);
        }
        live.push((p, *size));
    }
}
