//! A scratch virtual page for touching page tables that are not part of
//! the live hierarchy, together with the tiny three-frame allocator
//! that backs its own mapping.

use vstd::prelude::*;
use crate::frame::Frame;
use crate::frame_allocators::FrameAllocator;
use crate::mapper::{
    spec_chain_leaf, spec_chain_present, spec_mem_no_huge, spec_missing_tables, spec_walk_page,
};
use crate::page::{spec_canonical_page, spec_p1_index, spec_p2_index, spec_p3_index, spec_p4_index, Page};
use crate::paging::ActivePageTable;
use crate::table::{spec_present, EntryFlags, WRITABLE};

verus! {

/// A frame allocator that holds exactly three pre-reserved frames: the
/// most that one temporary mapping can need for its P3, P2 and P1
/// tables.
pub struct TinyAllocator {
    first: Option<Frame>,
    second: Option<Frame>,
    third: Option<Frame>,
}

impl TinyAllocator {
    /// Reserves three frames from `allocator` up front.
    pub fn new<A: FrameAllocator>(allocator: &mut A) -> (r: TinyAllocator)
        requires
            old(allocator).inv(),
        ensures
            final(allocator).inv(),
            r.inv(),
            r.future().subset_of(old(allocator).future()),
            r.future().disjoint(final(allocator).future()),
            final(allocator).future().subset_of(old(allocator).future()),
            old(allocator).avail() >= 3 ==> r.avail() == 3,
            final(allocator).avail() + 3 >= old(allocator).avail(),
    {
        let first = allocator.alloc_frame();
        let second = allocator.alloc_frame();
        let third = allocator.alloc_frame();
        let r = TinyAllocator { first, second, third };
        proof {
            assert forall|n: nat|
                r.future().contains(n) && final(allocator).future().contains(n) implies false by {}
        }
        r
    }
}

impl FrameAllocator for TinyAllocator {
    /// The held frames are pairwise distinct and small enough to be
    /// page-table frames.
    closed spec fn inv(&self) -> bool {
        &&& (self.first matches Some(f) ==> f@ < 0x100_0000_0000)
        &&& (self.second matches Some(f) ==> f@ < 0x100_0000_0000)
        &&& (self.third matches Some(f) ==> f@ < 0x100_0000_0000)
        &&& (self.first is Some && self.second is Some ==> self.first.unwrap()@
            != self.second.unwrap()@)
        &&& (self.first is Some && self.third is Some ==> self.first.unwrap()@
            != self.third.unwrap()@)
        &&& (self.second is Some && self.third is Some ==> self.second.unwrap()@
            != self.third.unwrap()@)
    }

    closed spec fn avail(&self) -> nat {
        (if self.first is Some {
            1nat
        } else {
            0nat
        }) + (if self.second is Some {
            1nat
        } else {
            0nat
        }) + (if self.third is Some {
            1nat
        } else {
            0nat
        })
    }

    closed spec fn future(&self) -> Set<nat> {
        let s = Set::<nat>::empty();
        let s = match self.first {
            Some(f) => s.insert(f@),
            None => s,
        };
        let s = match self.second {
            Some(f) => s.insert(f@),
            None => s,
        };
        match self.third {
            Some(f) => s.insert(f@),
            None => s,
        }
    }

    /// Serves the three reserved frames in order.
    fn alloc_frame(&mut self) -> (r: Option<Frame>) {
        if self.first.is_some() {
            self.first.take()
        } else if self.second.is_some() {
            self.second.take()
        } else if self.third.is_some() {
            self.third.take()
        } else {
            None
        }
    }

    /// Puts a frame back into a free slot; with all three slots full the
    /// frame is abandoned (such a return cannot arise from this crate's
    /// own three-frame usage).
    fn dealloc_frame(&mut self, frame: Frame) {
        if self.first.is_none() {
            self.first = Some(frame);
        } else if self.second.is_none() {
            self.second = Some(frame);
        } else if self.third.is_none() {
            self.third = Some(frame);
        }
    }
}

/// A scratch virtual page that can be mapped at an arbitrary frame so
/// the kernel can populate a table that is not currently reachable.
pub struct TemporaryPage {
    page: Page,
    allocator: TinyAllocator,
}

impl TemporaryPage {
    /// The virtual page used as the scratch window.
    pub closed spec fn page_index(&self) -> nat {
        self.page@
    }

    /// The frames still reserved for the scratch mapping's sub-tables.
    pub closed spec fn frames(&self) -> Set<nat> {
        self.allocator.future()
    }

    /// How many reserved frames are left.
    pub closed spec fn avail(&self) -> nat {
        self.allocator.avail()
    }

    pub closed spec fn inv(&self) -> bool {
        &&& self.allocator.inv()
        &&& spec_canonical_page(self.page@)
        &&& spec_p4_index(self.page@) != 511
    }

    /// The scratch page always lies in mappable space: canonical and
    /// outside the recursive-slot region.
    pub proof fn lemma_inv_page(&self)
        requires
            self.inv(),
        ensures
            spec_canonical_page(self.page_index()),
            spec_p4_index(self.page_index()) != 511,
    {
    }

    /// A scratch page over `page`, with three frames reserved from
    /// `allocator` for the tables its mapping may need.
    pub fn new<A: FrameAllocator>(page: Page, allocator: &mut A) -> (r: TemporaryPage)
        requires
            old(allocator).inv(),
            spec_canonical_page(page@),
            spec_p4_index(page@) != 511,
        ensures
            final(allocator).inv(),
            r.inv(),
            r.page_index() == page@,
            r.frames().subset_of(old(allocator).future()),
            r.frames().disjoint(final(allocator).future()),
            final(allocator).future().subset_of(old(allocator).future()),
            old(allocator).avail() >= 3 ==> r.avail() == 3,
            final(allocator).avail() + 3 >= old(allocator).avail(),
    {
        TemporaryPage { page, allocator: TinyAllocator::new(allocator) }
    }

    /// Maps the scratch page (writable) at `frame` in the active table,
    /// using the reserved frames for any missing sub-tables, and returns
    /// the page's start address. The scratch page must currently be
    /// unmapped.
    pub fn map(&mut self, frame: Frame, active_table: &mut ActivePageTable) -> (r: u64)
        requires
            old(self).inv(),
            old(active_table).mapper.inv(),
            spec_walk_page(
                old(active_table).mapper.mem(),
                old(active_table).mapper.root_frame(),
                old(self).page_index(),
            ) is None,
            old(active_table).mapper.table_frames().disjoint(old(self).frames()),
            old(self).avail() >= spec_missing_tables(
                old(active_table).mapper.mem(),
                old(active_table).mapper.root_frame(),
                old(self).page_index(),
            ),
            frame@ < 0x100_0000_0000,
        ensures
            final(self).inv(),
            final(self).page_index() == old(self).page_index(),
            final(self).frames().subset_of(old(self).frames()),
            final(active_table).mapper.inv(),
            final(active_table).mapper.root_frame() == old(active_table).mapper.root_frame(),
            spec_walk_page(
                final(active_table).mapper.mem(),
                final(active_table).mapper.root_frame(),
                old(self).page_index(),
            ) == Some(frame@),
            forall|q: nat|
                spec_canonical_page(q) && spec_p4_index(q) != 511 && q != old(self).page_index()
                    ==> spec_walk_page(
                    final(active_table).mapper.mem(),
                    final(active_table).mapper.root_frame(),
                    q,
                ) == spec_walk_page(
                    old(active_table).mapper.mem(),
                    old(active_table).mapper.root_frame(),
                    q,
                ),
            old(active_table).mapper.table_frames().subset_of(
                final(active_table).mapper.table_frames(),
            ),
            forall|n: nat|
                final(active_table).mapper.table_frames().contains(n) ==> old(active_table).mapper.table_frames().contains(n) || old(self).frames().contains(n),
            final(active_table).mapper.table_frames().disjoint(final(self).frames()),
            spec_mem_no_huge(old(active_table).mapper.mem()) ==> spec_mem_no_huge(
                final(active_table).mapper.mem(),
            ),
            forall|f: u64|
                old(active_table).mapper.is_root_table(f) ==> final(active_table).mapper.is_root_table(f),
            r == old(self).page_index() * 4096,
    {
        proof {
            if self.page@ >= 0xf_fff8_0000_0000 {
                assert(self.page@ * 4096 <= 0xffff_ffff_ffff_f000) by (nonlinear_arith)
                    requires self.page@ < 0x10_0000_0000_0000;
            } else {
                assert(self.page@ * 4096 <= 0xffff_ffff_ffff_f000) by (nonlinear_arith)
                    requires self.page@ < 0x8_0000_0000;
            }
        }
        let ghost frames0 = self.allocator.future();
        active_table.mapper.map_to(
            self.page,
            frame,
            EntryFlags::from_bits_truncate(WRITABLE),
            &mut self.allocator,
        );
        proof {
            crate::table::lemma_entry_bit_facts();
        }
        self.page.start_address()
    }

    /// Unmaps the scratch page again. The page must be mapped through a
    /// full directory chain (as `map` leaves it).
    pub fn unmap(&mut self, active_table: &mut ActivePageTable)
        requires
            old(self).inv(),
            old(active_table).mapper.inv(),
            spec_chain_present(
                old(active_table).mapper.mem(),
                old(active_table).mapper.root_frame(),
                spec_p4_index(old(self).page_index()) as int,
                spec_p3_index(old(self).page_index()) as int,
                spec_p2_index(old(self).page_index()) as int,
            ),
            spec_present(
                old(active_table).mapper.mem()[spec_chain_leaf(
                    old(active_table).mapper.mem(),
                    old(active_table).mapper.root_frame(),
                    spec_p4_index(old(self).page_index()) as int,
                    spec_p3_index(old(self).page_index()) as int,
                    spec_p2_index(old(self).page_index()) as int,
                )][spec_p1_index(old(self).page_index()) as int],
            ),
        ensures
            *final(self) == *old(self),
            final(active_table).mapper.inv(),
            final(active_table).mapper.root_frame() == old(active_table).mapper.root_frame(),
            spec_walk_page(
                final(active_table).mapper.mem(),
                final(active_table).mapper.root_frame(),
                old(self).page_index(),
            ) is None,
            forall|q: nat|
                spec_canonical_page(q) && spec_p4_index(q) != 511 && q != old(self).page_index()
                    ==> spec_walk_page(
                    final(active_table).mapper.mem(),
                    final(active_table).mapper.root_frame(),
                    q,
                ) == spec_walk_page(
                    old(active_table).mapper.mem(),
                    old(active_table).mapper.root_frame(),
                    q,
                ),
            final(active_table).mapper.table_frames() == old(active_table).mapper.table_frames(),
            final(active_table).mapper.mem().dom() == old(active_table).mapper.mem().dom(),
            forall|f: u64, i: int|
                old(active_table).mapper.mem().dom().contains(f) && 0 <= i < 512 ==> final(active_table).mapper.mem()[f][i] == old(active_table).mapper.mem()[f][i] || final(active_table).mapper.mem()[f][i] == 0,
            forall|f: u64|
                old(active_table).mapper.is_root_table(f) ==> final(active_table).mapper.is_root_table(f),
            spec_mem_no_huge(old(active_table).mapper.mem()) ==> spec_mem_no_huge(
                final(active_table).mapper.mem(),
            ),
    {
        active_table.mapper.unmap(self.page, &mut self.allocator);
    }
}

} // verus!
