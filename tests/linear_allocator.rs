use kernel_memory::linear_allocator::LinearAllocator;

fn fresh(start: usize, size: usize) -> LinearAllocator {
    let mut a = LinearAllocator::empty();
    a.init(start, size);
    a
}

#[test]
fn successive_allocations_are_disjoint_and_increasing() {
    let mut a = fresh(0x1000, 0x100);
    let reqs: [(usize, usize); 5] = [(3, 1), (8, 8), (1, 2), (16, 16), (5, 4)];
    let mut blocks: Vec<(usize, usize)> = Vec::new();
    for (size, align) in reqs {
        let p = a.allocate(size, align).expect("fits");
        blocks.push((p, size));
    }
    assert_eq!(blocks, vec![(0x1000, 3), (0x1008, 8), (0x1010, 1), (0x1020, 16), (0x1030, 5)]);
    for k in 1..blocks.len() {
        assert!(blocks[k - 1].0 + blocks[k - 1].1 <= blocks[k].0);
        assert!(blocks[k - 1].0 < blocks[k].0);
    }
}

#[test]
fn allocations_are_aligned_on_aligned_region() {
    let mut a = fresh(0x2000, 0x400);
    for (size, align) in [(1usize, 1usize), (3, 4), (7, 8), (1, 64), (2, 2), (9, 128)] {
        let p = a.allocate(size, align).expect("fits");
        assert_eq!(p % align, 0);
    }
}

#[test]
fn alignment_is_relative_to_region_start() {
    let mut a = fresh(0x3001, 0x100);
    assert_eq!(a.allocate(1, 1), Some(0x3001));
    assert_eq!(a.allocate(1, 4), Some(0x3005));
}

#[test]
fn exhaustion_boundary() {
    let mut a = fresh(0x4000, 64);
    assert_eq!(a.allocate(64, 8), Some(0x4000));
    assert_eq!(a.allocate(1, 1), None);

    let mut b = fresh(0x4000, 64);
    assert_eq!(b.allocate(65, 1), None);
    assert_eq!(b.allocate(64, 1), Some(0x4000));
}

#[test]
fn failed_request_leaves_cursor() {
    let mut a = fresh(0x5000, 16);
    assert_eq!(a.allocate(10, 1), Some(0x5000));
    assert_eq!(a.allocate(10, 1), None);
    assert_eq!(a.allocate(6, 1), Some(0x500a));
}

#[test]
fn padding_counts_against_the_end() {
    let mut a = fresh(0x6000, 16);
    assert_eq!(a.allocate(1, 1), Some(0x6000));
    assert_eq!(a.allocate(8, 16), None);
    assert_eq!(a.allocate(8, 8), Some(0x6008));
}

#[test]
fn zero_sized_requests_share_an_address() {
    let mut a = fresh(0x7000, 8);
    assert_eq!(a.allocate(0, 1), Some(0x7000));
    assert_eq!(a.allocate(0, 1), Some(0x7000));
}

#[test]
fn freeing_reclaims_nothing() {
    let mut a = fresh(0x8000, 8);
    let p = a.allocate(8, 1).unwrap();
    a.deallocate(p, 8);
    assert_eq!(a.allocate(1, 1), None);
}

#[test]
fn empty_allocator_has_no_room() {
    let mut a = LinearAllocator::empty();
    assert_eq!(a.allocate(1, 1), None);
}
