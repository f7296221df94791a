use min_rust_os::bump::BumpAllocator;
use min_rust_os::layout::Layout;

fn layout(size: usize, align: usize) -> Layout {
    Layout::from_size_align(size, align).unwrap()
}

#[test]
fn bump_new_is_empty() {
    let b = BumpAllocator::new();
    assert_eq!(b.next(), 0);
    assert_eq!(b.allocations(), 0);
}

#[test]
fn bump_allocations_are_aligned_and_sequential() {
    let mut b = BumpAllocator::new();
    b.init(0x1000, 0x100);
    assert_eq!(b.next(), 0x1000);
    assert_eq!(b.allocate(layout(1, 1)), Some(0x1000));
    assert_eq!(b.allocate(layout(8, 8)), Some(0x1008));
    assert_eq!(b.allocate(layout(3, 16)), Some(0x1010));
    assert_eq!(b.next(), 0x1013);
    assert_eq!(b.allocations(), 3);
}

#[test]
fn bump_exhaustion_fails_without_change() {
    let mut b = BumpAllocator::new();
    b.init(0x1000, 0x100);
    assert_eq!(b.allocate(layout(0x80, 1)), Some(0x1000));
    assert_eq!(b.allocate(layout(0x81, 1)), None);
    assert_eq!(b.next(), 0x1080);
    assert_eq!(b.allocations(), 1);
    assert_eq!(b.allocate(layout(0x80, 1)), Some(0x1080));
    assert_eq!(b.allocate(layout(0, 1)), Some(0x1100));
    assert_eq!(b.allocate(layout(1, 1)), None);
}

#[test]
fn bump_alignment_past_the_end_fails() {
    let mut b = BumpAllocator::new();
    b.init(0x1001, 0x0fff);
    assert_eq!(b.allocate(layout(1, 0x1000)), None);
    assert_eq!(b.next(), 0x1001);
}

#[test]
fn bump_alignment_overflow_fails() {
    let mut b = BumpAllocator::new();
    b.init(usize::MAX - 16, 16);
    assert_eq!(b.allocate(layout(1, 1usize << 62)), None);
    assert_eq!(b.allocate(layout(1, 1)), Some(usize::MAX - 16));
}

#[test]
fn bump_reset_after_all_freed() {
    let mut b = BumpAllocator::new();
    b.init(0x1000, 0x100);
    let l = layout(16, 8);
    let a1 = b.allocate(l).unwrap();
    let a2 = b.allocate(l).unwrap();
    let a3 = b.allocate(l).unwrap();
    assert_eq!((a1, a2, a3), (0x1000, 0x1010, 0x1020));
    b.deallocate(a2, l);
    assert_eq!(b.next(), 0x1030);
    b.deallocate(a3, l);
    b.deallocate(a1, l);
    assert_eq!(b.allocations(), 0);
    assert_eq!(b.next(), 0x1000);
    assert_eq!(b.allocate(layout(0x100, 1)), Some(0x1000));
}

#[test]
fn bump_live_allocation_blocks_reclaim() {
    let mut b = BumpAllocator::new();
    b.init(0x1000, 0x40);
    let l = layout(0x20, 1);
    let a1 = b.allocate(l).unwrap();
    let a2 = b.allocate(l).unwrap();
    b.deallocate(a2, l);
    assert_eq!(b.next(), 0x1040);
    assert_eq!(b.allocate(l), None);
    b.deallocate(a1, l);
    assert_eq!(b.allocate(l), Some(0x1000));
}
