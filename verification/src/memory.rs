//! Boot-time assembly of the memory subsystem: compute the kernel image
//! bounds, build the frame allocator, remap the kernel, map the heap,
//! reserve the stack range, and hand everything to one controller.

use vstd::prelude::*;
use crate::boot::{BootInfo, ElfSection, MemoryArea};
use crate::frame::Frame;
use crate::frame_allocators::{
    spec_areas_wf, spec_frame_reserved, spec_in_areas, AreaFrameAllocator, FrameAllocator,
};
use crate::mapper::spec_walk_page;
use crate::once::OnceFlag;
use crate::page::{spec_p4_index, Page};
use crate::paging::{
    remap_kernel, spec_in_section_frames, spec_remap_frame_demand, spec_remap_input_wf,
    spec_remap_target, spec_section_first, spec_section_last, ActivePageTable,
};
use crate::stack_allocator::{Stack, StackAllocator};
use crate::table::{EntryFlags, WRITABLE};

verus! {

/// Base virtual address of the kernel heap.
pub const HEAP_START: u64 = 0x4000_0000;

/// Size of the kernel heap in bytes (100 KiB: 25 pages).
pub const HEAP_SIZE: u64 = 100 * 1024;

/// First page of the kernel heap.
pub open spec fn spec_heap_first_page() -> nat {
    0x40000
}

/// Last page of the kernel heap.
pub open spec fn spec_heap_last_page() -> nat {
    0x40018
}

/// The lowest start address of any allocated section among the first `i`.
pub open spec fn spec_kernel_min(ss: Seq<ElfSection>, i: int) -> u64
    decreases i,
{
    if i <= 0 {
        0xffff_ffff_ffff_ffff
    } else {
        let rest = spec_kernel_min(ss, i - 1);
        if ss[i - 1].allocated && ss[i - 1].start < rest {
            ss[i - 1].start
        } else {
            rest
        }
    }
}

/// The highest end address of any allocated section among the first `i`.
pub open spec fn spec_kernel_max(ss: Seq<ElfSection>, i: int) -> u64
    decreases i,
{
    if i <= 0 {
        0
    } else {
        let rest = spec_kernel_max(ss, i - 1);
        if ss[i - 1].allocated && (ss[i - 1].start + ss[i - 1].size) as u64 > rest {
            (ss[i - 1].start + ss[i - 1].size) as u64
        } else {
            rest
        }
    }
}

/// The physical frames the boot allocator can ever hand out: usable
/// memory outside the kernel image and the boot information.
pub open spec fn spec_usable_frames(bi: BootInfo) -> Set<nat> {
    Set::new(
        |n: nat|
            spec_in_areas(bi.areas@, n) && !spec_frame_reserved(
                spec_kernel_min(bi.sections@, bi.sections@.len() as int) as nat / 4096,
                spec_kernel_max(bi.sections@, bi.sections@.len() as int) as nat / 4096,
                bi.start_address as nat / 4096,
                bi.end_address as nat / 4096,
                n,
            ),
    )
}

/// Frames the whole of `init` needs available: the remap, plus up to
/// four per heap page.
pub open spec fn spec_init_frame_demand(bi: BootInfo) -> nat {
    spec_remap_frame_demand(bi) + 100
}

/// What `init` expects of the boot input: a usable memory map, sections
/// fit for the remap, the boot root inside the kernel image, every remap
/// target below the heap, and enough usable frames.
pub open spec fn spec_init_input_wf(bi: BootInfo, boot_root: nat) -> bool {
    &&& spec_areas_wf(bi.areas@)
    &&& spec_remap_input_wf(bi)
    &&& exists|j: int| 0 <= j < bi.sections@.len() && (#[trigger] bi.sections@[j]).allocated
    &&& spec_in_section_frames(bi.sections@, boot_root)
    &&& (forall|n: nat| spec_remap_target(bi, n) ==> n < spec_heap_first_page())
    &&& spec_usable_frames(bi).len() >= spec_init_frame_demand(bi)
}

/// Exclusively owns the live page table, the frame allocator and the
/// stack allocator; built exactly once per boot and then moved to later
/// subsystems. Its only public surface is stack allocation.
pub struct MemoryController<A: FrameAllocator> {
    active_table: ActivePageTable,
    frame_allocator: A,
    stack_allocator: StackAllocator,
}

impl<A: FrameAllocator> MemoryController<A> {
    /// The table store of the live hierarchy.
    pub closed spec fn mem(&self) -> Map<u64, Seq<u64>> {
        self.active_table.mapper.mem()
    }

    /// The live root frame.
    pub closed spec fn root(&self) -> u64 {
        self.active_table.mapper.root_frame()
    }

    /// Guaranteed remaining frame allocations.
    pub closed spec fn avail(&self) -> nat {
        self.frame_allocator.avail()
    }

    /// The next unused page of the reserved stack range.
    pub closed spec fn stack_cursor(&self) -> nat {
        self.stack_allocator.cursor()
    }

    /// The last page of the reserved stack range.
    pub closed spec fn stack_last(&self) -> nat {
        self.stack_allocator.last()
    }

    /// The pieces fit together: a well-formed hierarchy and allocator
    /// that share no frames, and a reserved stack range that is still
    /// wholly unmapped.
    pub closed spec fn inv(&self) -> bool {
        &&& self.active_table.mapper.inv()
        &&& self.frame_allocator.inv()
        &&& self.active_table.mapper.table_frames().disjoint(self.frame_allocator.future())
        &&& self.stack_allocator.inv()
        &&& forall|p: nat|
            self.stack_allocator.cursor() <= p <= self.stack_allocator.last() ==> spec_walk_page(
                self.active_table.mapper.mem(),
                self.active_table.mapper.root_frame(),
                p,
            ) is None
    }

    /// Assembles a controller from its three parts.
    pub fn new(
        active_table: ActivePageTable,
        frame_allocator: A,
        stack_allocator: StackAllocator,
    ) -> (r: MemoryController<A>)
        requires
            active_table.mapper.inv(),
            frame_allocator.inv(),
            active_table.mapper.table_frames().disjoint(frame_allocator.future()),
            stack_allocator.inv(),
            forall|p: nat|
                stack_allocator.cursor() <= p <= stack_allocator.last() ==> spec_walk_page(
                    active_table.mapper.mem(),
                    active_table.mapper.root_frame(),
                    p,
                ) is None,
        ensures
            r.inv(),
            r.mem() == active_table.mapper.mem(),
            r.root() == active_table.mapper.root_frame(),
            r.avail() == frame_allocator.avail(),
            r.stack_cursor() == stack_allocator.cursor(),
            r.stack_last() == stack_allocator.last(),
    {
        MemoryController { active_table, frame_allocator, stack_allocator }
    }

    /// Allocates a guarded stack of `size` pages from the reserved
    /// range; `None` for a zero-size request or an exhausted range.
    /// Running out of physical frames mid-allocation would be fatal, so
    /// enough frames must be guaranteed up front.
    pub fn alloc_stack(&mut self, size: u64) -> (r: Option<Stack>)
        requires
            old(self).inv(),
            old(self).avail() >= 4 * size,
        ensures
            final(self).inv(),
            final(self).stack_last() == old(self).stack_last(),
            r is Some <==> (size >= 1 && old(self).stack_cursor() + size <= old(
                self,
            ).stack_last()),
            r matches Some(st) ==> {
                &&& st.spec_top() - st.spec_bottom() == size * 4096
                &&& st.spec_bottom() == (old(self).stack_cursor() + 1) * 4096
                &&& st.spec_top() == (old(self).stack_cursor() + size + 1) * 4096
                &&& final(self).stack_cursor() == old(self).stack_cursor() + size + 1
                // The guard page just below the stack maps to nothing.
                &&& spec_walk_page(
                    final(self).mem(),
                    final(self).root(),
                    (st.spec_bottom() / 4096 - 1) as nat,
                ) is None
                // The stack pages themselves are mapped.
                &&& forall|p: nat|
                    old(self).stack_cursor() + 1 <= p <= old(self).stack_cursor() + size
                        ==> spec_walk_page(final(self).mem(), final(self).root(), p) is Some
            },
            r is None ==> *final(self) == *old(self),
    {
        let r = self.stack_allocator.alloc_stack(
            &mut self.active_table,
            &mut self.frame_allocator,
            size,
        );
        proof {
            if r is Some {
                let c = old(self).stack_cursor();
                assert((((c + 1) * 4096) / 4096 - 1) as nat == c) by (nonlinear_arith);
            }
        }
        r
    }
}

/// Copies the boot-reported memory map into an owned vector.
fn copy_areas(areas: &Vec<MemoryArea>) -> (r: Vec<MemoryArea>)
    ensures
        r@ == areas@,
{
    let mut r: Vec<MemoryArea> = Vec::new();
    let mut i: usize = 0;
    while i < areas.len()
        invariant
            i <= areas@.len(),
            r@ == areas@.take(i as int),
        decreases areas@.len() - i,
    {
        r.push(areas[i]);
        proof {
            assert(r@ =~= areas@.take(i as int + 1));
        }
        i = i + 1;
    }
    proof {
        assert(r@ =~= areas@);
    }
    r
}

/// The byte range the kernel image occupies: the lowest start and the
/// highest end over its allocated ELF sections.
fn kernel_bounds(sections: &Vec<ElfSection>) -> (r: (u64, u64))
    requires
        forall|j: int|
            0 <= j < sections@.len() && (#[trigger] sections@[j]).allocated ==> sections@[j].start
                + sections@[j].size <= 0x8000_0000_0000,
    ensures
        r.0 == spec_kernel_min(sections@, sections@.len() as int),
        r.1 == spec_kernel_max(sections@, sections@.len() as int),
{
    let mut lo: u64 = 0xffff_ffff_ffff_ffff;
    let mut hi: u64 = 0;
    let mut i: usize = 0;
    #[verifier::loop_isolation(false)]
    while i < sections.len()
        invariant
            i <= sections@.len(),
            lo == spec_kernel_min(sections@, i as int),
            hi == spec_kernel_max(sections@, i as int),
        decreases sections@.len() - i,
    {
        let s = sections[i];
        if s.allocated {
            proof {
                assert(sections@[i as int].start + sections@[i as int].size <= 0x8000_0000_0000);
            }
            if s.start < lo {
                lo = s.start;
            }
            if s.start + s.size > hi {
                hi = s.start + s.size;
            }
        }
        i = i + 1;
    }
    (lo, hi)
}

/// Boot-time initialization of the memory subsystem, run exactly once:
/// build the frame allocator over the boot memory map (skipping the
/// kernel image and the boot information), remap the kernel through a
/// fresh hierarchy, map the heap range, and reserve the stack range
/// just above it. `boot_root` is the frame holding the boot stub's root
/// table, which lives inside the kernel image.
pub fn init(boot_info: &BootInfo, boot_root: Frame, run_once: &mut OnceFlag) -> (r:
    MemoryController<AreaFrameAllocator>)
    requires
        !old(run_once).called(),
        spec_init_input_wf(*boot_info, boot_root@),
    ensures
        final(run_once).called(),
        r.inv(),
        // The heap range is mapped in the new hierarchy.
        forall|p: nat|
            spec_heap_first_page() <= p <= spec_heap_last_page() ==> spec_walk_page(
                r.mem(),
                r.root(),
                p,
            ) is Some,
        // The remap targets stay mapped identically, except the old
        // root's page, which is now a guard page.
        forall|q: nat|
            spec_remap_target(*boot_info, q) && q != boot_root@ ==> spec_walk_page(
                r.mem(),
                r.root(),
                q,
            ) == Some(q),
        spec_walk_page(r.mem(), r.root(), boot_root@) is None,
        // The stack range sits just above the heap, 100 pages of it.
        r.stack_cursor() == spec_heap_last_page() + 1,
        r.stack_last() == spec_heap_last_page() + 101,
{
    let ghost bi = *boot_info;
    let called_before = run_once.begin();
    proof {
        assert(called_before);
    }
    let (kernel_start, kernel_end) = kernel_bounds(&boot_info.sections);
    let areas = copy_areas(&boot_info.areas);
    let mut frame_allocator = AreaFrameAllocator::new(
        kernel_start,
        kernel_end,
        boot_info.start_address,
        boot_info.end_address,
        areas,
    );
    proof {
        assert(frame_allocator.future() =~= spec_usable_frames(bi));
        lemma_boot_root_reserved(bi, boot_root@);
        assert(!frame_allocator.future().contains(boot_root@));
    }
    let active_table = ActivePageTable::bootstrap(boot_root.duplicate());
    proof {
        assert forall|n: nat|
            active_table.mapper.table_frames().contains(n) && frame_allocator.future().contains(n)
            implies false by {}
    }
    let mut active_table = remap_kernel(active_table, &mut frame_allocator, boot_info);
    map_heap(&mut active_table, &mut frame_allocator, Ghost(bi), Ghost(boot_root@));
    let heap_end_page = Page::containing_address(HEAP_START + HEAP_SIZE - 1);
    let ghost root = active_table.mapper.root_frame();
    // Reserve 100 pages just above the heap for kernel stacks.
    let alloc_start = heap_end_page.add(1);
    let alloc_end = alloc_start.add(100);
    let stack_allocator = StackAllocator::new(Page::range_inclusive(alloc_start, alloc_end));
    proof {
        assert forall|q: nat|
            stack_allocator.cursor() <= q <= stack_allocator.last() implies spec_walk_page(
            active_table.mapper.mem(),
            root,
            q,
        ) is None by {
            crate::page::lemma_bit35_low(q);
        }
    }
    proof {
        assert(spec_remap_target(bi, boot_root@));
        assert(boot_root@ < spec_heap_first_page());
        crate::page::lemma_bit35_low(boot_root@);
        assert(spec_walk_page(active_table.mapper.mem(), root, boot_root@) is None);
    }
    MemoryController::new(active_table, frame_allocator, stack_allocator)
}

/// The boot root lies in the kernel image, so the frame allocator never
/// hands it out: its frame is inside the reserved kernel range.
proof fn lemma_boot_root_reserved(bi: BootInfo, root: nat)
    requires
        spec_remap_input_wf(bi),
        spec_in_section_frames(bi.sections@, root),
    ensures
        spec_kernel_min(bi.sections@, bi.sections@.len() as int) as nat / 4096 <= root <= spec_kernel_max(
            bi.sections@,
            bi.sections@.len() as int,
        ) as nat / 4096,
{
    let ss = bi.sections@;
    let j = choose|j: int|
        0 <= j < ss.len() && (#[trigger] ss[j]).allocated && spec_section_first(ss[j]) <= root
            <= spec_section_last(ss[j]);
    lemma_kernel_min_le(ss, j, ss.len() as int);
    lemma_kernel_max_ge(ss, j, ss.len() as int);
    let kmin = spec_kernel_min(ss, ss.len() as int);
    let kmax = spec_kernel_max(ss, ss.len() as int);
    assert(kmin <= ss[j].start);
    assert(kmax >= (ss[j].start + ss[j].size) as u64);
    assert(kmin as nat / 4096 <= ss[j].start as nat / 4096) by (nonlinear_arith)
        requires (kmin as nat) <= (ss[j].start as nat);
    assert(root * 4096 <= ss[j].start + ss[j].size - 1) by {
        assert(root <= spec_section_last(ss[j]));
        let e = (ss[j].start + ss[j].size - 1) as nat;
        assert((e / 4096) * 4096 <= e) by (nonlinear_arith);
        assert(root * 4096 <= (e / 4096) * 4096) by (nonlinear_arith)
            requires root <= e / 4096;
    }
    assert(root <= kmax as nat / 4096) by (nonlinear_arith)
        requires
            root * 4096 <= (kmax as nat) - 1,
            (kmax as nat) >= 1,
    ;
}

proof fn lemma_kernel_min_le(ss: Seq<ElfSection>, j: int, i: int)
    requires
        0 <= j < i <= ss.len(),
        ss[j].allocated,
    ensures
        spec_kernel_min(ss, i) <= ss[j].start,
    decreases i,
{
    if j + 1 < i {
        lemma_kernel_min_le(ss, j, i - 1);
    }
}

proof fn lemma_kernel_max_ge(ss: Seq<ElfSection>, j: int, i: int)
    requires
        0 <= j < i <= ss.len(),
        ss[j].allocated,
    ensures
        spec_kernel_max(ss, i) >= (ss[j].start + ss[j].size) as u64,
    decreases i,
{
    if j + 1 < i {
        lemma_kernel_max_ge(ss, j, i - 1);
    }
}


/// Maps the 25 pages of the kernel heap, writable, into the freshly
/// remapped hierarchy; the heap range lies above every remap target, so
/// it starts out unmapped.
fn map_heap<A: FrameAllocator>(
    active_table: &mut ActivePageTable,
    frame_allocator: &mut A,
    bi: Ghost<BootInfo>,
    boot_root: Ghost<nat>,
)
    requires
        old(active_table).mapper.inv(),
        old(frame_allocator).inv(),
        old(active_table).mapper.table_frames().disjoint(old(frame_allocator).future()),
        old(frame_allocator).avail() >= 100,
        forall|n: nat| spec_remap_target(bi@, n) ==> n < spec_heap_first_page(),
        forall|q: nat|
            crate::page::spec_canonical_page(q) && spec_p4_index(q) != 511 ==> spec_walk_page(
                old(active_table).mapper.mem(),
                old(active_table).mapper.root_frame(),
                q,
            ) == (if spec_remap_target(bi@, q) && q != boot_root@ {
                Some(q)
            } else {
                None::<nat>
            }),
    ensures
        final(active_table).mapper.inv(),
        final(frame_allocator).inv(),
        final(active_table).mapper.root_frame() == old(active_table).mapper.root_frame(),
        final(active_table).mapper.table_frames().disjoint(final(frame_allocator).future()),
        forall|n: nat|
            spec_heap_first_page() <= n <= spec_heap_last_page() ==> spec_walk_page(
                final(active_table).mapper.mem(),
                final(active_table).mapper.root_frame(),
                n,
            ) is Some,
        forall|q: nat|
            crate::page::spec_canonical_page(q) && spec_p4_index(q) != 511 && !(
            spec_heap_first_page() <= q <= spec_heap_last_page()) ==> spec_walk_page(
                final(active_table).mapper.mem(),
                final(active_table).mapper.root_frame(),
                q,
            ) == (if spec_remap_target(bi@, q) && q != boot_root@ {
                Some(q)
            } else {
                None::<nat>
            }),
{
    let heap_start_page = Page::containing_address(HEAP_START);
    let heap_end_page = Page::containing_address(HEAP_START + HEAP_SIZE - 1);
    let mut p = heap_start_page.index();
    let last = heap_end_page.index();
    let ghost root = active_table.mapper.root_frame();
    while p <= last
        invariant
            spec_heap_first_page() <= p as nat,
            p as nat <= spec_heap_last_page() + 1,
            last as nat == spec_heap_last_page(),
            forall|n: nat| spec_remap_target(bi@, n) ==> n < spec_heap_first_page(),
            active_table.mapper.inv(),
            frame_allocator.inv(),
            active_table.mapper.root_frame() == root,
            active_table.mapper.table_frames().disjoint(frame_allocator.future()),
            frame_allocator.avail() >= 4 * (spec_heap_last_page() + 1 - p as nat),
            forall|n: nat|
                spec_heap_first_page() <= n < p as nat ==> spec_walk_page(
                    active_table.mapper.mem(),
                    root,
                    n,
                ) is Some,
            forall|q: nat|
                crate::page::spec_canonical_page(q) && spec_p4_index(q) != 511 && !(
                spec_heap_first_page() <= q < p as nat) ==> spec_walk_page(
                    active_table.mapper.mem(),
                    root,
                    q,
                ) == (if spec_remap_target(bi@, q) && q != boot_root@ {
                    Some(q)
                } else {
                    None::<nat>
                }),
        decreases last + 1 - p,
    {
        proof {
            crate::table::lemma_entry_bit_facts();
            crate::page::lemma_bit35_low(p as nat);
            assert(spec_walk_page(active_table.mapper.mem(), root, p as nat) is None);
        }
        active_table.mapper.map(
            Page::new(p),
            EntryFlags::from_bits_truncate(WRITABLE),
            frame_allocator,
        );
        p = p + 1;
    }
}

} // verus!
