//! The boot-memory-map frame allocator.

use sparkle_memory::boot::MemoryArea;
use sparkle_memory::frame_allocators::{AreaFrameAllocator, FrameAllocator};
use sparkle_memory::temporary_page::TinyAllocator;

#[test]
fn first_frame_comes_right_after_the_kernel() {
    // Memory map [{base: 0x100000, length: 0xF00000}], kernel occupying
    // [0x100000, 0x200000): the first allocation is the frame at
    // 0x200000.
    let areas = vec![MemoryArea::new(0x10_0000, 0xf0_0000)];
    let mut allocator =
        AreaFrameAllocator::new(0x10_0000, 0x1f_ffff, 0x10_0000, 0x10_0fff, areas);
    let first = allocator.alloc_frame().unwrap();
    assert_eq!(first.start_address(), 0x20_0000);
}

#[test]
fn never_yields_kernel_or_boot_info_frames() {
    let areas = vec![MemoryArea::new(0x10_0000, 0xf0_0000)];
    // Kernel frames [0x100, 0x1ff]; boot-information frames [0x500, 0x501].
    let mut allocator =
        AreaFrameAllocator::new(0x10_0000, 0x1f_ffff, 0x50_0000, 0x50_1fff, areas);
    let mut previous: Option<u64> = None;
    let mut count: u64 = 0;
    loop {
        match allocator.alloc_frame() {
            Some(f) => {
                let n = f.index();
                assert!(!(0x100 <= n && n <= 0x1ff));
                assert!(!(0x500 <= n && n <= 0x501));
                // The stream is strictly increasing.
                if let Some(p) = previous {
                    assert!(n > p);
                }
                previous = Some(n);
                count += 1;
            },
            None => break,
        }
    }
    // Area frames [0x100, 0xfff] minus 0x100 kernel frames and 2
    // boot-information frames.
    assert_eq!(count, 0xf00 - 0x100 - 2);
}

#[test]
fn spans_multiple_areas_lowest_base_first() {
    let areas = vec![MemoryArea::new(0x80_0000, 0x2000), MemoryArea::new(0x10_0000, 0x2000)];
    // Kernel and boot information both far away.
    let mut allocator =
        AreaFrameAllocator::new(0xf0_0000, 0xf0_ffff, 0xf0_0000, 0xf0_0fff, areas);
    assert_eq!(allocator.alloc_frame().unwrap().index(), 0x100);
    assert_eq!(allocator.alloc_frame().unwrap().index(), 0x101);
    assert_eq!(allocator.alloc_frame().unwrap().index(), 0x800);
    assert_eq!(allocator.alloc_frame().unwrap().index(), 0x801);
    assert!(allocator.alloc_frame().is_none());
}

#[test]
fn tiny_allocator_serves_exactly_three_frames() {
    let areas = vec![MemoryArea::new(0x10_0000, 0xf0_0000)];
    let mut allocator =
        AreaFrameAllocator::new(0x10_0000, 0x1f_ffff, 0x10_0000, 0x10_0fff, areas);
    let mut tiny = TinyAllocator::new(&mut allocator);
    let a = tiny.alloc_frame().unwrap();
    let b = tiny.alloc_frame().unwrap();
    let c = tiny.alloc_frame().unwrap();
    assert!(a.index() != b.index() && b.index() != c.index() && a.index() != c.index());
    assert!(tiny.alloc_frame().is_none());
}
