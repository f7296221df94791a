use min_rust_os::layout::Layout;
use min_rust_os::linked_list::{LinkedListAllocator, ListNode, HEADER_ALIGN, HEADER_SIZE};

fn layout(size: usize, align: usize) -> Layout {
    Layout::from_size_align(size, align).unwrap()
}

fn regions(a: &LinkedListAllocator) -> Vec<(usize, usize)> {
    a.regions().iter().map(|n| (n.start_addr(), n.size)).collect()
}

#[test]
fn list_node_addresses() {
    let n = ListNode::new(0x1000, 0x40);
    assert_eq!(n.start_addr(), 0x1000);
    assert_eq!(n.end_addr(), 0x1040);
}

#[test]
fn size_align_adjusts_for_header() {
    assert_eq!(HEADER_SIZE, 16);
    assert_eq!(HEADER_ALIGN, 8);
    assert_eq!(LinkedListAllocator::size_align(layout(1, 1)), (16, 8));
    assert_eq!(LinkedListAllocator::size_align(layout(0, 1)), (16, 8));
    assert_eq!(LinkedListAllocator::size_align(layout(17, 8)), (24, 8));
    assert_eq!(LinkedListAllocator::size_align(layout(24, 4)), (24, 8));
    assert_eq!(LinkedListAllocator::size_align(layout(1, 64)), (64, 64));
    assert_eq!(LinkedListAllocator::size_align(layout(100, 32)), (128, 32));
}

#[test]
fn linked_list_init_makes_one_region() {
    let mut a = LinkedListAllocator::new();
    assert!(regions(&a).is_empty());
    a.init(0x1000, 0x100);
    assert_eq!(regions(&a), vec![(0x1000, 0x100)]);
}

#[test]
fn linked_list_alloc_splits_region() {
    let mut a = LinkedListAllocator::new();
    a.init(0x1000, 0x100);
    assert_eq!(a.allocate(layout(32, 8)), Some(0x1000));
    assert_eq!(regions(&a), vec![(0x1020, 0xe0)]);
    assert_eq!(a.allocate(layout(1, 1)), Some(0x1020));
    assert_eq!(regions(&a), vec![(0x1030, 0xd0)]);
}

#[test]
fn linked_list_alignment_skips_gap() {
    let mut a = LinkedListAllocator::new();
    a.init(0x1008, 0x100);
    assert_eq!(a.allocate(layout(16, 64)), Some(0x1040));
    assert_eq!(regions(&a), vec![(0x1080, 0x1108 - 0x1080)]);
}

#[test]
fn linked_list_small_remainder_is_dropped() {
    let mut a = LinkedListAllocator::new();
    a.init(0x1000, 32);
    assert_eq!(a.allocate(layout(24, 8)), Some(0x1000));
    assert!(regions(&a).is_empty());
    assert_eq!(a.allocate(layout(1, 1)), None);
}

#[test]
fn linked_list_round_trip_reuses_address() {
    let mut a = LinkedListAllocator::new();
    a.init(0x1000, 0x1000);
    let l = layout(40, 8);
    let p = a.allocate(l).unwrap();
    a.deallocate(p, l);
    assert_eq!(regions(&a)[0], (p, 40));
    assert_eq!(a.allocate(l), Some(p));
}

#[test]
fn linked_list_first_fit_takes_head_first() {
    let mut a = LinkedListAllocator::new();
    a.init(0x1000, 0x100);
    let l = layout(16, 8);
    let p1 = a.allocate(l).unwrap();
    let p2 = a.allocate(l).unwrap();
    a.deallocate(p1, l);
    a.deallocate(p2, l);
    assert_eq!(regions(&a), vec![(0x1010, 16), (0x1000, 16), (0x1020, 0xe0)]);
    assert_eq!(a.allocate(l), Some(0x1010));
    assert_eq!(a.allocate(l), Some(0x1000));
    assert_eq!(a.allocate(l), Some(0x1020));
}

#[test]
fn linked_list_freed_regions_are_not_merged() {
    let mut a = LinkedListAllocator::new();
    a.init(0x1000, 48);
    let l = layout(16, 8);
    let p1 = a.allocate(l).unwrap();
    let p2 = a.allocate(l).unwrap();
    let p3 = a.allocate(l).unwrap();
    assert_eq!((p1, p2, p3), (0x1000, 0x1010, 0x1020));
    a.deallocate(p1, l);
    a.deallocate(p2, l);
    a.deallocate(p3, l);
    assert_eq!(a.allocate(layout(32, 8)), None);
    assert_eq!(regions(&a).len(), 3);
}

#[test]
fn linked_list_exhaustion_fails_without_change() {
    let mut a = LinkedListAllocator::new();
    a.init(0x1000, 0x100);
    assert_eq!(a.allocate(layout(0x101, 1)), None);
    assert_eq!(regions(&a), vec![(0x1000, 0x100)]);
    assert_eq!(a.allocate(layout(0x100, 1)), Some(0x1000));
    assert!(regions(&a).is_empty());
}

#[test]
fn linked_list_alignment_overflow_fails() {
    let mut a = LinkedListAllocator::new();
    a.init(usize::MAX - 0x107, 0x100);
    assert_eq!(a.allocate(layout(16, 1usize << 62)), None);
    assert_eq!(a.allocate(layout(16, 8)), Some(usize::MAX - 0x107));
}

#[test]
fn linked_list_release_check() {
    let mut a = LinkedListAllocator::new();
    a.init(0x1000, 0x100);
    let l = layout(16, 8);
    let p = a.allocate(l).unwrap();
    assert!(a.can_deallocate(p, l));
    assert!(!a.can_deallocate(0x1020, l));
    assert!(!a.can_deallocate(0x1004, l));
    assert!(!a.can_deallocate(usize::MAX - 7, l));
    a.deallocate(p, l);
    assert!(!a.can_deallocate(p, l));
}
