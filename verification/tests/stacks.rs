//! Guarded stack allocation from the reserved virtual range.

use sparkle_memory::boot::MemoryArea;
use sparkle_memory::frame::Frame;
use sparkle_memory::frame_allocators::AreaFrameAllocator;
use sparkle_memory::page::Page;
use sparkle_memory::paging::ActivePageTable;
use sparkle_memory::stack_allocator::StackAllocator;

fn setup() -> (ActivePageTable, AreaFrameAllocator, StackAllocator) {
    let areas = vec![MemoryArea::new(0x10_0000, 0xf0_0000)];
    let allocator = AreaFrameAllocator::new(0x10_0000, 0x1f_ffff, 0x12_0000, 0x12_0fff, areas);
    let active_table = ActivePageTable::bootstrap(Frame::new(0x100));
    let stacks = StackAllocator::new(Page::range_inclusive(Page::new(0x5000), Page::new(0x5020)));
    (active_table, allocator, stacks)
}

#[test]
fn zero_sized_stacks_are_refused() {
    let (mut active_table, mut allocator, mut stacks) = setup();
    assert!(stacks.alloc_stack(&mut active_table, &mut allocator, 0).is_none());
}

#[test]
fn stack_spans_its_pages_with_a_guard_below() {
    let (mut active_table, mut allocator, mut stacks) = setup();
    let stack = stacks.alloc_stack(&mut active_table, &mut allocator, 3).unwrap();
    // The guard page 0x5000 stays unmapped; the stack covers the three
    // pages above it.
    assert_eq!(stack.bottom(), 0x5001 * 4096);
    assert_eq!(stack.top(), 0x5004 * 4096);
    assert_eq!(stack.top() - stack.bottom(), 3 * 4096);
    assert!(active_table.mapper.translate(0x5000 * 4096).is_none());
    for p in 0x5001u64..0x5004 {
        assert!(active_table.mapper.translate(p * 4096).is_some());
    }
    assert!(active_table.mapper.translate(0x5004 * 4096).is_none());
}

#[test]
fn consecutive_stacks_never_overlap() {
    let (mut active_table, mut allocator, mut stacks) = setup();
    let first = stacks.alloc_stack(&mut active_table, &mut allocator, 1).unwrap();
    let second = stacks.alloc_stack(&mut active_table, &mut allocator, 1).unwrap();
    assert!(first.top() <= second.bottom() - 4096);
    // The second stack's guard page sits between them, unmapped.
    assert!(active_table.mapper.translate(first.top()).is_none());
}

#[test]
fn exhausted_range_is_refused_not_fatal() {
    let (mut active_table, mut allocator, mut stacks) = setup();
    // The range holds 0x21 pages; a 0x21-page stack plus a guard page
    // does not fit.
    assert!(stacks.alloc_stack(&mut active_table, &mut allocator, 0x21).is_none());
    // A smaller request still succeeds afterwards.
    assert!(stacks.alloc_stack(&mut active_table, &mut allocator, 4).is_some());
}
