//! Remapping the kernel into a fresh hierarchy, and full boot-time
//! initialization.

use sparkle_memory::boot::{BootInfo, ElfSection, MemoryArea};
use sparkle_memory::frame::Frame;
use sparkle_memory::frame_allocators::AreaFrameAllocator;
use sparkle_memory::memory;
use sparkle_memory::once::OnceFlag;
use sparkle_memory::paging::{remap_kernel, ActivePageTable};
use sparkle_memory::table::{EntryFlags, PRESENT, WRITABLE};

/// One memory area; the kernel image is a single writable section at
/// its start; the boot information sits just above the image.
fn boot_info() -> BootInfo {
    BootInfo {
        areas: vec![MemoryArea::new(0x10_0000, 0xf0_0000)],
        sections: vec![ElfSection {
            start: 0x10_0000,
            size: 0x1_0000,
            allocated: true,
            writable: true,
            executable: false,
        }],
        start_address: 0x12_0000,
        end_address: 0x12_1000,
    }
}

fn remap() -> (ActivePageTable, AreaFrameAllocator, Frame) {
    let bi = boot_info();
    let boot_root = Frame::new(0x100);
    let mut allocator = AreaFrameAllocator::new(
        0x10_0000,
        0x11_0000,
        bi.start_address,
        bi.end_address,
        vec![MemoryArea::new(0x10_0000, 0xf0_0000)],
    );
    let active_table = ActivePageTable::bootstrap(boot_root);
    let active_table = remap_kernel(active_table, &mut allocator, &bi);
    (active_table, allocator, Frame::new(0x100))
}

#[test]
fn recursive_slot_points_at_the_new_root() {
    let (active_table, _allocator, _old_root) = remap();
    let root = active_table.mapper.p4_frame();
    let entry = active_table.mapper.p4().entry(511);
    assert_eq!(
        entry.flags().bits(),
        EntryFlags::from_bits_truncate(PRESENT | WRITABLE).bits(),
    );
    assert_eq!(entry.pointed_frame().unwrap().index(), root.index());
}

#[test]
fn old_root_page_becomes_a_guard_page() {
    let (active_table, _allocator, old_root) = remap();
    // The old root's page translates to nothing now...
    assert!(active_table.mapper.translate(old_root.index() * 4096).is_none());
    // ...while the rest of the kernel image stays identity-mapped.
    assert_eq!(active_table.mapper.translate(0x10_1000), Some(0x10_1000));
    assert_eq!(active_table.mapper.translate(0x10_f234), Some(0x10_f234));
    // The VGA text buffer and the boot information too.
    assert_eq!(active_table.mapper.translate(0xb8_000), Some(0xb8_000));
    assert_eq!(active_table.mapper.translate(0x12_0000), Some(0x12_0000));
    // Anything else is unmapped.
    assert!(active_table.mapper.translate(0x20_0000).is_none());
}

#[test]
fn init_builds_a_working_controller() {
    let bi = boot_info();
    let mut run_once = OnceFlag::new();
    let mut controller = memory::init(&bi, Frame::new(0x100), &mut run_once);
    // Zero-sized stacks are refused; real ones are sized exactly.
    assert!(controller.alloc_stack(0).is_none());
    let stack = controller.alloc_stack(3).unwrap();
    assert_eq!(stack.top() - stack.bottom(), 3 * 4096);
    let second = controller.alloc_stack(1).unwrap();
    assert_eq!(second.top() - second.bottom(), 4096);
    assert!(second.bottom() >= stack.top());
}
