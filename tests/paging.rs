use kernel_memory::paging::{
    allocate, can_deallocate, deallocate, describe_allocations, zeroing_allocate, FrameAllocator,
    Page, PageBits, PAGE_ORDER, PAGE_SIZE,
};

const BASE: usize = 0x8000_0000;
const START: usize = BASE + PAGE_SIZE;

fn heap(pages: usize) -> FrameAllocator {
    FrameAllocator::new(BASE, pages * PAGE_SIZE)
}

fn addr(i: usize) -> usize {
    START + i * PAGE_SIZE
}

#[test]
fn page_bits_values() {
    assert_eq!(PageBits::Empty.val(), 0);
    assert_eq!(PageBits::Taken.val(), 1);
    assert_eq!(PageBits::Last.val(), 2);
    assert_eq!(1usize << PAGE_ORDER, PAGE_SIZE);
}

#[test]
fn page_flags() {
    let mut p = Page::new();
    assert!(p.is_free() && !p.is_taken() && !p.is_last());
    p.set_flag(PageBits::Taken);
    assert!(p.is_taken() && !p.is_free() && !p.is_last());
    p.set_flag(PageBits::Last);
    assert!(p.is_taken() && p.is_last());
    p.clear_flag(PageBits::Taken);
    assert!(p.is_free() && p.is_last());
    p.set_flag(PageBits::Empty);
    assert!(p.is_last());
    p.clear();
    assert!(p.is_free() && !p.is_last());
}

#[test]
fn layout_of_a_new_region() {
    let h = heap(16);
    assert_eq!(h.num_pages(), 16);
    assert_eq!(h.alloc_start(), START);
    assert!(describe_allocations(&h).is_empty());

    let big = FrameAllocator::new(BASE, 4097 * PAGE_SIZE + 100);
    assert_eq!(big.num_pages(), 4097);
    assert_eq!(big.alloc_start(), BASE + 2 * PAGE_SIZE);
}

#[test]
fn allocations_are_contiguous_first_fit() {
    let mut h = heap(8);
    assert_eq!(allocate(&mut h, 1), Some(addr(0)));
    assert_eq!(allocate(&mut h, 3), Some(addr(1)));
    assert_eq!(allocate(&mut h, 2), Some(addr(4)));
    assert_eq!(describe_allocations(&h), vec![(addr(0), 1), (addr(1), 3), (addr(4), 2)]);
}

#[test]
fn request_for_the_whole_tail_succeeds() {
    let mut h = heap(8);
    assert_eq!(allocate(&mut h, 5), Some(addr(0)));
    assert_eq!(allocate(&mut h, 3), Some(addr(5)));
    assert_eq!(allocate(&mut h, 1), None);

    let mut all = heap(4);
    assert_eq!(allocate(&mut all, 4), Some(addr(0)));
}

#[test]
fn request_larger_than_region_fails() {
    let mut h = heap(4);
    assert_eq!(allocate(&mut h, 5), None);
    assert!(describe_allocations(&h).is_empty());
}

#[test]
fn allocate_then_free_round_trip() {
    for k in 1..=6usize {
        let mut h = heap(6);
        let p = allocate(&mut h, k).unwrap();
        assert_eq!(describe_allocations(&h), vec![(p, k)]);
        assert!(can_deallocate(&h, p));
        deallocate(&mut h, p);
        assert!(describe_allocations(&h).is_empty());
        assert_eq!(allocate(&mut h, 6), Some(addr(0)));
    }
}

/// Leaves pages {0, 1, 2, 5, 6, 7, 8} free out of 16.
fn scattered() -> FrameAllocator {
    let mut h = heap(16);
    let a = allocate(&mut h, 3).unwrap();
    allocate(&mut h, 2).unwrap();
    let b = allocate(&mut h, 4).unwrap();
    allocate(&mut h, 7).unwrap();
    deallocate(&mut h, a);
    deallocate(&mut h, b);
    assert_eq!(describe_allocations(&h), vec![(addr(3), 2), (addr(9), 7)]);
    h
}

#[test]
fn first_fit_takes_the_lowest_run() {
    let mut h = scattered();
    assert_eq!(allocate(&mut h, 3), Some(addr(0)));
    let mut h = scattered();
    assert_eq!(allocate(&mut h, 4), Some(addr(5)));
    let mut h = scattered();
    assert_eq!(allocate(&mut h, 5), None);
}

#[test]
fn no_partial_allocation() {
    let mut h = heap(16);
    let a = allocate(&mut h, 2).unwrap();
    allocate(&mut h, 1).unwrap();
    let b = allocate(&mut h, 2).unwrap();
    allocate(&mut h, 11).unwrap();
    deallocate(&mut h, a);
    deallocate(&mut h, b);
    let before = describe_allocations(&h);
    assert_eq!(before, vec![(addr(2), 1), (addr(5), 11)]);
    assert_eq!(allocate(&mut h, 4), None);
    assert_eq!(describe_allocations(&h), before);
    assert_eq!(allocate(&mut h, 2), Some(addr(0)));
}

#[test]
fn zeroing_allocate_clears_every_word() {
    let mut h = heap(4);
    let p = allocate(&mut h, 2).unwrap();
    for w in 0..(2 * PAGE_SIZE / 8) {
        h.write_word(p + 8 * w, 0xdead_beef_0000_0000 | w as u64);
    }
    h.write_word(addr(2), 7);
    deallocate(&mut h, p);
    let z = zeroing_allocate(&mut h, 2).unwrap();
    assert_eq!(z, p);
    for w in 0..(2 * PAGE_SIZE / 8) {
        assert_eq!(h.read_word(z + 8 * w), 0);
    }
    assert_eq!(h.read_word(addr(2)), 7);
}

#[test]
fn zeroing_allocate_failure_changes_nothing() {
    let mut h = heap(2);
    h.write_word(addr(0), 5);
    assert_eq!(zeroing_allocate(&mut h, 3), None);
    assert_eq!(h.read_word(addr(0)), 5);
    assert!(describe_allocations(&h).is_empty());
}

#[test]
fn double_free_is_refused() {
    let mut h = heap(4);
    let p = allocate(&mut h, 2).unwrap();
    assert!(can_deallocate(&h, p));
    deallocate(&mut h, p);
    assert!(!can_deallocate(&h, p));
}

#[test]
fn only_run_starts_may_be_freed() {
    let mut h = heap(8);
    allocate(&mut h, 3).unwrap();
    assert!(can_deallocate(&h, addr(0)));
    assert!(can_deallocate(&h, addr(0) + 100));
    assert!(!can_deallocate(&h, addr(1)));
    assert!(!can_deallocate(&h, addr(3)));
    assert!(!can_deallocate(&h, START - 1));
    assert!(!can_deallocate(&h, addr(8)));
}

#[test]
fn freeing_one_run_keeps_its_neighbours() {
    let mut h = heap(8);
    let a = allocate(&mut h, 1).unwrap();
    let b = allocate(&mut h, 2).unwrap();
    let c = allocate(&mut h, 1).unwrap();
    deallocate(&mut h, b);
    assert_eq!(describe_allocations(&h), vec![(a, 1), (c, 1)]);
    assert_eq!(allocate(&mut h, 2), Some(b));
}

#[test]
fn region_smaller_than_a_page_has_no_pages() {
    let mut h = FrameAllocator::new(BASE, PAGE_SIZE - 1);
    assert_eq!(h.num_pages(), 0);
    assert_eq!(h.alloc_start(), BASE);
    assert_eq!(allocate(&mut h, 1), None);
    assert!(describe_allocations(&h).is_empty());
}
