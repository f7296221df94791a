use min_rust_os::fixed_size_block::FixedSizeBlockAllocator;
use min_rust_os::layout::Layout;
use min_rust_os::linked_list::LinkedListAllocator;
use min_rust_os::{Dummy, HEAP_SIZE, HEAP_START};

fn layout(size: usize, align: usize) -> Layout {
    Layout::from_size_align(size, align).unwrap()
}

fn start() -> usize {
    HEAP_START as usize
}

fn in_heap(addr: usize, size: usize) -> bool {
    addr >= start() && addr + size <= start() + HEAP_SIZE
}

fn fixed_heap() -> FixedSizeBlockAllocator {
    let mut a = FixedSizeBlockAllocator::new();
    a.init(start(), HEAP_SIZE);
    a
}

fn linked_heap() -> LinkedListAllocator {
    let mut a = LinkedListAllocator::new();
    a.init(start(), HEAP_SIZE);
    a
}

/// Grows a vector of `u64`-sized elements to `n` elements the way a growable
/// array does (doubling its buffer), and returns the sum of the stored values.
fn grow_and_sum(a: &mut FixedSizeBlockAllocator, n: u64) -> u64 {
    let mut values: Vec<u64> = Vec::new();
    let mut cap: usize = 4;
    let mut buf = a.allocate(layout(cap * 8, 8)).unwrap();
    assert!(in_heap(buf, cap * 8));
    for i in 0..n {
        if values.len() == cap {
            let bigger = a.allocate(layout(cap * 2 * 8, 8)).unwrap();
            assert!(in_heap(bigger, cap * 2 * 8));
            assert!(bigger + cap * 16 <= buf || buf + cap * 8 <= bigger);
            a.deallocate(buf, layout(cap * 8, 8));
            buf = bigger;
            cap *= 2;
        }
        values.push(i);
    }
    a.deallocate(buf, layout(cap * 8, 8));
    values.iter().sum()
}

#[test]
fn simple_allocation() {
    let mut a = fixed_heap();
    let l = layout(4, 4);
    let p1 = a.allocate(l).unwrap();
    let p2 = a.allocate(l).unwrap();
    assert!(in_heap(p1, 4) && in_heap(p2, 4));
    assert!(p1 + 4 <= p2 || p2 + 4 <= p1);
}

#[test]
fn large_and_multiple_allocations() {
    let mut a = fixed_heap();
    let n = 1000;
    assert_eq!(grow_and_sum(&mut a, n), (n - 1) * n / 2);
}

#[test]
fn many_boxes() {
    let mut a = fixed_heap();
    let l = layout(8, 8);
    for _ in 0..HEAP_SIZE {
        let p = a.allocate(l).unwrap();
        assert!(in_heap(p, 8));
        a.deallocate(p, l);
    }
}

#[test]
fn end_to_end_scenario() {
    let mut a = fixed_heap();
    assert_eq!(grow_and_sum(&mut a, 500), 499 * 500 / 2);
    let l = layout(8, 8);
    for _ in 0..25_000 {
        let p = a.allocate(l).unwrap();
        assert!(in_heap(p, 8));
        a.deallocate(p, l);
    }
}

#[test]
fn linked_list_many_boxes() {
    let mut a = linked_heap();
    let l = layout(8, 8);
    let first = a.allocate(l).unwrap();
    a.deallocate(first, l);
    for _ in 0..HEAP_SIZE {
        let p = a.allocate(l).unwrap();
        assert_eq!(p, first);
        a.deallocate(p, l);
    }
}

#[test]
fn allocations_stay_disjoint_and_in_heap() {
    let mut a = linked_heap();
    let mut taken: Vec<(usize, usize)> = Vec::new();
    for k in 1..40usize {
        let size = k * 13;
        let align = 1usize << (k % 7);
        let p = a.allocate(layout(size, align)).unwrap();
        assert_eq!(p % align, 0);
        assert!(in_heap(p, size));
        for &(q, s) in &taken {
            assert!(p + size <= q || q + s <= p);
        }
        taken.push((p, size));
    }
}

#[test]
fn heap_exhaustion_reports_failure() {
    let mut a = fixed_heap();
    assert_eq!(a.allocate(layout(HEAP_SIZE + 1, 8)), None);
    let p = a.allocate(layout(HEAP_SIZE, 8));
    assert_eq!(p, Some(start()));
    assert_eq!(a.allocate(layout(8, 8)), None);
}

#[test]
fn dummy_always_fails() {
    let d = Dummy;
    assert_eq!(d.allocate(layout(8, 8)), None);
    assert_eq!(d.allocate(layout(0, 1)), None);
}

#[test]
fn heap_constants() {
    assert_eq!(HEAP_START, 0x4444_4444_0000);
    assert_eq!(HEAP_SIZE, 100 * 1024);
}
