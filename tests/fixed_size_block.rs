use min_rust_os::fixed_size_block::{block_size_of, list_index, FixedSizeBlockAllocator, LARGEST_BLOCK_SIZE, NUM_BLOCK_SIZES};
use min_rust_os::layout::Layout;

fn layout(size: usize, align: usize) -> Layout {
    Layout::from_size_align(size, align).unwrap()
}

fn heap(start: usize, size: usize) -> FixedSizeBlockAllocator {
    let mut a = FixedSizeBlockAllocator::new();
    a.init(start, size);
    a
}

#[test]
fn block_sizes_double_from_eight() {
    let sizes: Vec<usize> = (0..NUM_BLOCK_SIZES).map(block_size_of).collect();
    assert_eq!(sizes, vec![8, 16, 32, 64, 128, 256, 512, 1024, 2048]);
    assert_eq!(LARGEST_BLOCK_SIZE, 2048);
}

#[test]
fn list_index_picks_smallest_class() {
    assert_eq!(list_index(&layout(1, 1)), Some(0));
    assert_eq!(list_index(&layout(0, 1)), Some(0));
    assert_eq!(list_index(&layout(8, 8)), Some(0));
    assert_eq!(list_index(&layout(9, 1)), Some(1));
    assert_eq!(list_index(&layout(1, 16)), Some(1));
    assert_eq!(list_index(&layout(100, 4)), Some(4));
    assert_eq!(list_index(&layout(2048, 1)), Some(8));
    assert_eq!(list_index(&layout(2049, 1)), None);
    assert_eq!(list_index(&layout(8, 4096)), None);
}

#[test]
fn fixed_new_block_comes_from_fallback() {
    let mut a = heap(0x1000, 0x1000);
    let p = a.allocate(layout(24, 8)).unwrap();
    assert_eq!(p, 0x1000);
    assert_eq!(p % 32, 0);
    let regions: Vec<(usize, usize)> = a.fallback_regions().iter().map(|n| (n.start, n.size)).collect();
    assert_eq!(regions, vec![(0x1020, 0xfe0)]);
}

#[test]
fn fixed_freed_block_reused_before_growing() {
    let mut a = heap(0x1000, 0x1000);
    let l = layout(16, 8);
    let p = a.allocate(l).unwrap();
    let q = a.allocate(l).unwrap();
    assert_ne!(p, q);
    a.deallocate(p, l);
    assert_eq!(a.free_blocks(1), &vec![p]);
    let before = a.fallback_regions().clone();
    assert_eq!(a.allocate(layout(9, 1)), Some(p));
    assert_eq!(a.fallback_regions(), &before);
    assert!(a.free_blocks(1).is_empty());
}

#[test]
fn fixed_blocks_are_class_aligned() {
    let mut a = heap(0x1008, 0x2000);
    let p = a.allocate(layout(100, 4)).unwrap();
    assert_eq!(p % 128, 0);
    let q = a.allocate(layout(3, 64)).unwrap();
    assert_eq!(q % 64, 0);
}

#[test]
fn fixed_large_request_uses_fallback() {
    let mut a = heap(0x1000, 0x2000);
    let l = layout(3000, 8);
    let p = a.allocate(l).unwrap();
    assert_eq!(p, 0x1000);
    for k in 0..NUM_BLOCK_SIZES {
        assert!(a.free_blocks(k).is_empty());
    }
    let regions: Vec<(usize, usize)> = a.fallback_regions().iter().map(|n| (n.start, n.size)).collect();
    assert_eq!(regions, vec![(0x1000 + 3000, 0x2000 - 3000)]);
    a.deallocate(p, l);
    assert_eq!(a.allocate(l), Some(p));
}

#[test]
fn fixed_round_trip_reuses_address() {
    let mut a = heap(0x1000, 0x1000);
    let l = layout(64, 64);
    let p = a.allocate(l).unwrap();
    a.deallocate(p, l);
    assert_eq!(a.allocate(l), Some(p));
}

#[test]
fn fixed_exhaustion_fails() {
    let mut a = heap(0x1008, 0x100);
    assert_eq!(a.allocate(layout(0x101, 1)), None);
    assert_eq!(a.allocate(layout(4096, 8)), None);
    assert_eq!(a.allocate(layout(256, 256)), None);
    assert_eq!(a.allocate(layout(128, 1)), Some(0x1080));
}

#[test]
fn fixed_release_check() {
    let mut a = heap(0x1000, 0x1000);
    let small = layout(16, 8);
    let large = layout(4000, 8);
    let p = a.allocate(small).unwrap();
    let q = a.allocate(large).unwrap();
    assert!(a.can_deallocate(p, small));
    assert!(a.can_deallocate(q, large));
    assert!(!a.can_deallocate(p + 8, small));
    assert!(!a.can_deallocate(0x1fc0, small));
    a.deallocate(p, small);
    assert!(!a.can_deallocate(p, small));
    assert!(!a.can_deallocate(p, layout(8, 8)));
    a.deallocate(q, large);
    assert!(!a.can_deallocate(q, large));
}
