//! Bump allocation of guarded kernel stacks from a reserved range of
//! virtual pages.

use vstd::prelude::*;
use crate::frame_allocators::FrameAllocator;
use crate::mapper::spec_walk_page;
use crate::page::{spec_canonical_page, spec_p4_index, Page, PageIter};
use crate::paging::ActivePageTable;
use crate::table::{EntryFlags, WRITABLE};

verus! {

/// A kernel stack: the virtual byte range `[bottom, top)`, with `top`
/// the high end the stack grows down from.
#[derive(Debug)]
pub struct Stack {
    top: u64,
    bottom: u64,
}

impl Stack {
    pub closed spec fn spec_top(&self) -> nat {
        self.top as nat
    }

    pub closed spec fn spec_bottom(&self) -> nat {
        self.bottom as nat
    }

    /// A stack must have its top strictly above its bottom.
    fn new(top: u64, bottom: u64) -> (r: Stack)
        requires
            top > bottom,
        ensures
            r.spec_top() == top,
            r.spec_bottom() == bottom,
    {
        Stack { top, bottom }
    }

    pub fn top(&self) -> (r: u64)
        ensures
            r == self.spec_top(),
    {
        self.top
    }

    pub fn bottom(&self) -> (r: u64)
        ensures
            r == self.spec_bottom(),
    {
        self.bottom
    }
}

/// Hands out stacks from a reserved, contiguous range of unused virtual
/// pages, never reusing any part of it.
pub struct StackAllocator {
    range: PageIter,
}

impl StackAllocator {
    /// The next unused page of the reserved range.
    pub closed spec fn cursor(&self) -> nat {
        self.range.cursor()
    }

    /// The last page of the reserved range.
    pub closed spec fn last(&self) -> nat {
        self.range.last()
    }

    /// The reserved range stays in the identity-mappable low half, and
    /// the cursor never runs more than one page past its end.
    pub open spec fn inv(&self) -> bool {
        &&& self.last() < 0x8_0000_0000
        &&& self.cursor() <= self.last() + 1
    }

    /// An allocator over the given reserved page range.
    pub fn new(page_range: PageIter) -> (r: StackAllocator)
        requires
            page_range.last() < 0x8_0000_0000,
            page_range.cursor() <= page_range.last() + 1,
        ensures
            r.inv(),
            r.cursor() == page_range.cursor(),
            r.last() == page_range.last(),
    {
        StackAllocator { range: page_range }
    }

    /// Allocates a stack of `size` pages: reserves one unmapped guard
    /// page below it, maps `size` writable pages above, and returns the
    /// resulting range. A zero-size request and an exhausted range give
    /// `None` and change nothing; physical-frame exhaustion is excluded
    /// up front, since there is no way to recover from it at boot.
    pub fn alloc_stack<A: FrameAllocator>(
        &mut self,
        active_table: &mut ActivePageTable,
        frame_alloc: &mut A,
        size: u64,
    ) -> (r: Option<Stack>)
        requires
            old(self).inv(),
            old(active_table).mapper.inv(),
            old(frame_alloc).inv(),
            old(active_table).mapper.table_frames().disjoint(old(frame_alloc).future()),
            old(frame_alloc).avail() >= 4 * size,
            forall|p: nat|
                old(self).cursor() <= p <= old(self).last() ==> spec_walk_page(
                    old(active_table).mapper.mem(),
                    old(active_table).mapper.root_frame(),
                    p,
                ) is None,
        ensures
            final(self).inv(),
            final(self).last() == old(self).last(),
            final(active_table).mapper.inv(),
            final(active_table).mapper.root_frame() == old(active_table).mapper.root_frame(),
            final(frame_alloc).inv(),
            final(active_table).mapper.table_frames().disjoint(final(frame_alloc).future()),
            final(frame_alloc).future().subset_of(old(frame_alloc).future()),
            forall|p: nat|
                final(self).cursor() <= p <= final(self).last() ==> spec_walk_page(
                    final(active_table).mapper.mem(),
                    final(active_table).mapper.root_frame(),
                    p,
                ) is None,
            if size >= 1 && old(self).cursor() + size <= old(self).last() {
                ({
                    &&& r matches Some(st)
                    &&& st.spec_top() == (old(self).cursor() + size + 1) * 4096
                    &&& st.spec_bottom() == (old(self).cursor() + 1) * 4096
                    &&& st.spec_top() - st.spec_bottom() == size * 4096
                    &&& final(self).cursor() == old(self).cursor() + size + 1
                    // The guard page immediately below the stack stays
                    // unmapped.
                    &&& spec_walk_page(
                        final(active_table).mapper.mem(),
                        final(active_table).mapper.root_frame(),
                        old(self).cursor(),
                    ) is None
                    // The stack pages themselves are mapped.
                    &&& forall|p: nat|
                        old(self).cursor() + 1 <= p <= old(self).cursor() + size
                            ==> spec_walk_page(
                            final(active_table).mapper.mem(),
                            final(active_table).mapper.root_frame(),
                            p,
                        ) is Some
                })
            } else {
                &&& r is None
                &&& *final(self) == *old(self)
                &&& *final(active_table) == *old(active_table)
                &&& *final(frame_alloc) == *old(frame_alloc)
            },
            forall|q: nat|
                spec_canonical_page(q) && spec_p4_index(q) != 511 && !(old(self).cursor() + 1 <= q
                    <= old(self).cursor() + size) ==> spec_walk_page(
                    final(active_table).mapper.mem(),
                    final(active_table).mapper.root_frame(),
                    q,
                ) == spec_walk_page(
                    old(active_table).mapper.mem(),
                    old(active_table).mapper.root_frame(),
                    q,
                ),
    {
        // Zero-size stacks are nonsensical.
        if size == 0 {
            return None;
        }
        // Try to reserve a guard page and `size` stack pages.
        let mut range = self.range.duplicate();
        let guard_page = match range.next() {
            Some(p) => p,
            None => {
                return None;
            },
        };
        let stack_start = match range.next() {
            Some(p) => p,
            None => {
                return None;
            },
        };
        let mut stack_end = stack_start;
        let mut k: u64 = 1;
        #[verifier::loop_isolation(false)]
        while k < size
            invariant
                1 <= k <= size,
                stack_end@ == guard_page@ + k,
                stack_end@ <= range.last(),
                range.cursor() == guard_page@ + k + 1,
                range.last() == old(self).last(),
                range.last() < 0x8_0000_0000,
                guard_page@ == old(self).cursor(),
            decreases size - k,
        {
            match range.next() {
                Some(p) => {
                    stack_end = p;
                    k = k + 1;
                },
                None => {
                    return None;
                },
            }
        }
        // Commit the consumed range.
        self.range = range;
        // Map the stack pages to fresh physical frames.
        let ghost root = active_table.mapper.root_frame();
        let ghost c0 = guard_page@;
        let mut n = stack_start.index();
        let last_page = stack_end.index();
        proof {
            crate::table::lemma_entry_bit_facts();
        }
        while n <= last_page
            invariant
                c0 == old(self).cursor(),
                c0 + 1 <= n as nat,
                n as nat <= c0 + size + 1,
                last_page as nat == c0 + size,
                last_page as nat <= old(self).last(),
                old(self).last() < 0x8_0000_0000,
                last_page < 0x8_0000_0000,
                size >= 1,
                forall|p: nat|
                    old(self).cursor() <= p <= old(self).last() ==> spec_walk_page(
                        old(active_table).mapper.mem(),
                        root,
                        p,
                    ) is None,
                active_table.mapper.inv(),
                frame_alloc.inv(),
                active_table.mapper.root_frame() == root,
                active_table.mapper.table_frames().disjoint(frame_alloc.future()),
                frame_alloc.future().subset_of(old(frame_alloc).future()),
                frame_alloc.avail() + 4 * (n as nat - c0 - 1) >= 4 * size,
                forall|p: nat|
                    c0 + 1 <= p < n as nat ==> spec_walk_page(
                        active_table.mapper.mem(),
                        root,
                        p,
                    ) is Some,
                forall|q: nat|
                    spec_canonical_page(q) && spec_p4_index(q) != 511 && !(c0 + 1 <= q < n as nat)
                        ==> spec_walk_page(active_table.mapper.mem(), root, q) == spec_walk_page(
                        old(active_table).mapper.mem(),
                        root,
                        q,
                    ),
            decreases last_page + 1 - n,
        {
            proof {
                crate::table::lemma_entry_bit_facts();
                crate::page::lemma_bit35_low(n as nat);
                assert(spec_walk_page(old(active_table).mapper.mem(), root, n as nat) is None);
                assert(spec_walk_page(active_table.mapper.mem(), root, n as nat) is None);
            }
            active_table.mapper.map(
                Page::new(n),
                EntryFlags::from_bits_truncate(WRITABLE),
                frame_alloc,
            );
            n = n + 1;
        }
        proof {
            assert(spec_walk_page(active_table.mapper.mem(), root, c0) is None) by {
                crate::page::lemma_bit35_low(c0);
                assert(spec_walk_page(old(active_table).mapper.mem(), root, c0) is None);
            }
            assert forall|p: nat|
                self.cursor() <= p <= self.last() implies spec_walk_page(
                active_table.mapper.mem(),
                root,
                p,
            ) is None by {
                crate::page::lemma_bit35_low(p);
                assert(spec_walk_page(old(active_table).mapper.mem(), root, p) is None);
            }
        }
        let top = stack_end.start_address() + crate::frame::PAGE_SIZE;
        let bottom = stack_start.start_address();
        Some(Stack::new(top, bottom))
    }
}

} // verus!
