use jit_memory::align::{align_up, checked_align_up, is_power_of_two};
use jit_memory::memory::Memory;
use jit_memory::protection::BranchProtection;

#[test]
fn align_up_values() {
    assert_eq!(align_up(0, 1), 0);
    assert_eq!(align_up(5, 8), 8);
    assert_eq!(align_up(8, 8), 8);
    assert_eq!(align_up(100, 16), 112);
    assert_eq!(align_up(1, 4096), 4096);
    assert_eq!(align_up(4096, 4096), 4096);
    assert_eq!(align_up(4097, 4096), 8192);
}

#[test]
fn checked_align_up_overflow() {
    assert_eq!(checked_align_up(usize::MAX, 2), None);
    assert_eq!(checked_align_up(usize::MAX - 1, 2), Some(usize::MAX - 1));
    assert_eq!(checked_align_up(3, 4), Some(4));
}

#[test]
fn power_of_two_check() {
    assert!(is_power_of_two(1));
    assert!(is_power_of_two(2));
    assert!(is_power_of_two(4096));
    assert!(!is_power_of_two(0));
    assert!(!is_power_of_two(3));
    assert!(!is_power_of_two(12));
    assert!(!is_power_of_two(usize::MAX));
}

#[test]
fn returned_offsets_are_aligned() {
    let mut m = Memory::with_page_size(BranchProtection::Off, 1 << 20, 4096).unwrap();
    for &align in &[1u64, 2, 8, 64, 512, 4096] {
        let out = m.allocate_readwrite(100, align).unwrap();
        assert_eq!(out.offset % align as usize, 0);
        let out = m.allocate_readexec(33, align).unwrap();
        assert_eq!(out.offset % align as usize, 0);
    }
}
