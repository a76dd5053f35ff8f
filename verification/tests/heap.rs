//! The bump allocator used for early kernel-heap testing.

use sparkle_memory::bump::{align_down, align_up, Heap};

#[test]
fn align_down_clears_low_bits() {
    assert_eq!(align_down(0x1234, 0x1000), 0x1000);
    assert_eq!(align_down(0x1000, 0x1000), 0x1000);
    assert_eq!(align_down(0xfff, 0x1000), 0);
    assert_eq!(align_down(7, 1), 7);
    // An alignment of zero leaves the address untouched.
    assert_eq!(align_down(0x1234, 0), 0x1234);
}

#[test]
fn align_up_rounds_to_the_next_multiple() {
    assert_eq!(align_up(0x1234, 0x1000), 0x2000);
    assert_eq!(align_up(0x1000, 0x1000), 0x1000);
    assert_eq!(align_up(1, 0x1000), 0x1000);
    assert_eq!(align_up(0, 8), 0);
}

#[test]
fn heap_bumps_and_respects_its_end() {
    let mut heap = Heap::new(0x1000, 0x100);
    let a = heap.allocate(0x10, 8).unwrap();
    assert_eq!(a, 0x1000);
    let b = heap.allocate(0x10, 0x20).unwrap();
    // The second chunk is aligned up past the first.
    assert_eq!(b, 0x1020);
    assert!(b >= a + 0x10);
    // The heap refuses what no longer fits.
    assert!(heap.allocate(0x100, 8).is_none());
    // Deallocation leaks by design: the space is not reused.
    heap.deallocate(a, 0x10, 8);
    let c = heap.allocate(0x8, 8).unwrap();
    assert!(c > b);
}
