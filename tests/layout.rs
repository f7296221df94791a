use min_rust_os::layout::{align_up, check_power_of_two, Layout};

#[test]
fn align_up_rounds_to_next_multiple() {
    assert_eq!(align_up(0, 8), 0);
    assert_eq!(align_up(1, 8), 8);
    assert_eq!(align_up(8, 8), 8);
    assert_eq!(align_up(9, 8), 16);
    assert_eq!(align_up(0x1001, 0x1000), 0x2000);
    assert_eq!(align_up(13, 1), 13);
}

#[test]
fn power_of_two_check() {
    assert!(check_power_of_two(1));
    assert!(check_power_of_two(2));
    assert!(check_power_of_two(4096));
    assert!(check_power_of_two(1usize << 63));
    assert!(!check_power_of_two(0));
    assert!(!check_power_of_two(3));
    assert!(!check_power_of_two(12));
    assert!(!check_power_of_two(usize::MAX));
}

#[test]
fn layout_from_size_align() {
    let l = Layout::from_size_align(24, 8).unwrap();
    assert_eq!(l.size(), 24);
    assert_eq!(l.align(), 8);
    assert!(Layout::from_size_align(0, 1).is_some());
    assert!(Layout::from_size_align(8, 0).is_none());
    assert!(Layout::from_size_align(8, 6).is_none());
    assert!(Layout::from_size_align(isize::MAX as usize, 1).is_some());
    assert!(Layout::from_size_align(isize::MAX as usize, 2).is_none());
    assert!(Layout::from_size_align(isize::MAX as usize - 7, 8).is_some());
}
