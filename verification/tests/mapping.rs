//! Mapping, translation and unmapping through the live hierarchy.

use sparkle_memory::boot::MemoryArea;
use sparkle_memory::frame::Frame;
use sparkle_memory::frame_allocators::AreaFrameAllocator;
use sparkle_memory::page::Page;
use sparkle_memory::paging::ActivePageTable;
use sparkle_memory::table::{EntryFlags, WRITABLE};

/// A boot-like setup: one memory area, the kernel image at its start,
/// the boot root table inside the kernel image.
fn setup() -> (ActivePageTable, AreaFrameAllocator) {
    let areas = vec![MemoryArea::new(0x10_0000, 0xf0_0000)];
    let allocator = AreaFrameAllocator::new(0x10_0000, 0x1f_ffff, 0x12_0000, 0x12_0fff, areas);
    let active_table = ActivePageTable::bootstrap(Frame::new(0x100));
    (active_table, allocator)
}

#[test]
fn translate_covers_every_offset_of_a_mapped_page() {
    let (mut active_table, mut allocator) = setup();
    let page = Page::new(0x1234);
    let frame = Frame::new(0x300);
    active_table.mapper.map_to(
        page,
        frame,
        EntryFlags::from_bits_truncate(WRITABLE),
        &mut allocator,
    );
    for k in [0u64, 1, 0x123, 0xfff] {
        assert_eq!(
            active_table.mapper.translate(0x1234 * 4096 + k),
            Some(0x300 * 4096 + k),
        );
    }
    assert_eq!(active_table.mapper.page_to_frame(page).unwrap().index(), 0x300);
}

#[test]
fn unmap_makes_translate_return_none() {
    let (mut active_table, mut allocator) = setup();
    let page = Page::new(0x1234);
    active_table.mapper.map_to(
        page,
        Frame::new(0x300),
        EntryFlags::from_bits_truncate(WRITABLE),
        &mut allocator,
    );
    assert!(active_table.mapper.translate(0x1234 * 4096).is_some());
    active_table.mapper.unmap(page, &mut allocator);
    assert_eq!(active_table.mapper.translate(0x1234 * 4096), None);
    // Neighbouring mappings would be untouched; nothing else was mapped.
    assert_eq!(active_table.mapper.translate(0x1235 * 4096), None);
}

#[test]
fn mapping_is_isolated_per_page() {
    let (mut active_table, mut allocator) = setup();
    active_table.mapper.map_to(
        Page::new(0x1000),
        Frame::new(0x700),
        EntryFlags::from_bits_truncate(WRITABLE),
        &mut allocator,
    );
    active_table.mapper.map_to(
        Page::new(0x1001),
        Frame::new(0x800),
        EntryFlags::from_bits_truncate(WRITABLE),
        &mut allocator,
    );
    assert_eq!(active_table.mapper.translate(0x1000 * 4096), Some(0x700 * 4096));
    assert_eq!(active_table.mapper.translate(0x1001 * 4096), Some(0x800 * 4096));
    assert_eq!(active_table.mapper.translate(0x1002 * 4096), None);
}

#[test]
fn map_draws_the_frame_from_the_allocator() {
    let (mut active_table, mut allocator) = setup();
    let page = Page::new(0x2000);
    active_table.mapper.map(page, EntryFlags::from_bits_truncate(WRITABLE), &mut allocator);
    let frame = active_table.mapper.page_to_frame(page).unwrap();
    // The allocator never hands out kernel or boot-information frames.
    assert!(frame.index() >= 0x200 || (0x121 <= frame.index() && frame.index() < 0x200));
    assert!(!(0x100 <= frame.index() && frame.index() <= 0x1ff));
}

#[test]
fn upper_half_pages_map_too() {
    let (mut active_table, mut allocator) = setup();
    // A canonical upper-half address: sign-extended, top of memory.
    let page = Page::containing_address(0xffff_8000_0000_0000);
    active_table.mapper.map_to(
        page,
        Frame::new(0x300),
        EntryFlags::from_bits_truncate(WRITABLE),
        &mut allocator,
    );
    assert_eq!(
        active_table.mapper.translate(0xffff_8000_0000_0042),
        Some(0x300 * 4096 + 0x42),
    );
}

#[test]
fn many_pages_share_their_tables() {
    let (mut active_table, mut allocator) = setup();
    // Thirty-two consecutive pages land in the same P1 table; the
    // sub-tables are created once and reused.
    for i in 0u64..32 {
        active_table.mapper.map_to(
            Page::new(0x3000 + i),
            Frame::new(0x400 + i),
            EntryFlags::from_bits_truncate(WRITABLE),
            &mut allocator,
        );
    }
    for i in 0u64..32 {
        assert_eq!(
            active_table.mapper.translate((0x3000 + i) * 4096),
            Some((0x400 + i) * 4096),
        );
    }
}
