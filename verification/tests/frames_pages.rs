//! Frames, pages, entries and flags: the leaf data of the subsystem.

use sparkle_memory::frame::{Frame, PAGE_SIZE};
use sparkle_memory::page::Page;
use sparkle_memory::table::{
    Entry, EntryFlags, HUGE_PAGE, NO_EXECUTE, PRESENT, WRITABLE,
};

#[test]
fn frame_containing_start_address_roundtrip() {
    // For any frame, the frame containing its start address is itself.
    for index in [0u64, 1, 42, 0x200, 0xff_ffff_ffff] {
        let f = Frame::new(index);
        let back = Frame::containing_address(f.start_address());
        assert_eq!(back.index(), index);
        assert!(back == Frame::new(index));
    }
}

#[test]
fn frame_arithmetic() {
    assert_eq!(Frame::containing_address(0).index(), 0);
    assert_eq!(Frame::containing_address(4095).index(), 0);
    assert_eq!(Frame::containing_address(4096).index(), 1);
    assert_eq!(Frame::new(7).next_frame().index(), 8);
    assert_eq!(Frame::new(3).start_address(), 3 * PAGE_SIZE);
}

#[test]
fn frame_range_iterates_inclusive() {
    let mut it = Frame::range_inclusive(Frame::new(5), Frame::new(7));
    assert_eq!(it.next().unwrap().index(), 5);
    assert_eq!(it.next().unwrap().index(), 6);
    assert_eq!(it.next().unwrap().index(), 7);
    assert!(it.next().is_none());
}

#[test]
fn page_table_slot_indices() {
    let p = Page::new(0xABAD_CAFE);
    assert_eq!(p.p4_index(), 0x15);
    assert_eq!(p.p3_index(), 0xeb);
    assert_eq!(p.p2_index(), 0xe5);
    assert_eq!(p.p1_index(), 0xfe);
}

#[test]
fn page_containing_address() {
    assert_eq!(Page::containing_address(0x4000_0000).index(), 0x40000);
    assert_eq!(Page::containing_address(0x4000_0fff).index(), 0x40000);
    // The upper half is canonical too.
    assert_eq!(Page::containing_address(0xffff_8000_0000_0000).index(), 0xf_fff8_0000_0000);
    assert_eq!(Page::new(10).add(5).index(), 15);
    assert_eq!(Page::new(3).start_address(), 3 * PAGE_SIZE);
}

#[test]
fn page_range_iterates_inclusive() {
    let mut it = Page::range_inclusive(Page::new(9), Page::new(10));
    assert_eq!(it.next().unwrap().index(), 9);
    assert_eq!(it.next().unwrap().index(), 10);
    assert!(it.next().is_none());
}

#[test]
fn entry_flags_operations() {
    let pw = EntryFlags::from_bits_truncate(PRESENT | WRITABLE);
    assert_eq!(pw.bits(), 0x3);
    assert!(pw.contains(EntryFlags::from_bits_truncate(PRESENT)));
    assert!(!pw.contains(EntryFlags::from_bits_truncate(HUGE_PAGE)));
    let all = pw.union(EntryFlags::from_bits_truncate(NO_EXECUTE));
    assert_eq!(all.bits(), PRESENT | WRITABLE | NO_EXECUTE);
    assert_eq!(EntryFlags::empty().bits(), 0);
    // Unknown bits are dropped.
    assert_eq!(EntryFlags::from_bits_truncate(0xffff).bits(), 0x1ff);
}

#[test]
fn section_flags_follow_permissions() {
    let data = sparkle_memory::boot::ElfSection {
        start: 0x100000,
        size: 0x1000,
        allocated: true,
        writable: true,
        executable: false,
    };
    assert_eq!(EntryFlags::from_elf_section_flags(&data).bits(), PRESENT | WRITABLE | NO_EXECUTE);
    let code = sparkle_memory::boot::ElfSection { writable: false, executable: true, ..data };
    assert_eq!(EntryFlags::from_elf_section_flags(&code).bits(), PRESENT);
    let unused = sparkle_memory::boot::ElfSection { allocated: false, executable: true, ..data };
    assert_eq!(EntryFlags::from_elf_section_flags(&unused).bits(), WRITABLE);
}

#[test]
fn entry_stores_frame_and_flags() {
    let mut e = Entry::unused();
    assert!(e.is_unused());
    assert!(e.pointed_frame().is_none());
    e.set(Frame::new(0x300), EntryFlags::from_bits_truncate(PRESENT | WRITABLE));
    assert!(!e.is_unused());
    assert_eq!(e.pointed_frame().unwrap().index(), 0x300);
    assert_eq!(e.flags().bits(), PRESENT | WRITABLE);
    e.set_unused();
    assert!(e.is_unused());
}
