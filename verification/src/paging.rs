//! Ownership of the live page-table root, the handle for a table that
//! is not yet live, and the boot-time remapping of the kernel.

use vstd::prelude::*;
use crate::boot::{BootInfo, ElfSection};
use crate::frame::Frame;
use crate::frame_allocators::FrameAllocator;
use crate::mapper::{spec_mem_no_huge, spec_walk_page, Mapper};
use crate::page::{spec_canonical_page, spec_p4_index, Page};
use crate::table::{spec_entry_value, EntryFlags, PRESENT, WRITABLE};
use crate::temporary_page::TemporaryPage;

verus! {

/// Owns the hierarchy the walk currently resolves against.
pub struct ActivePageTable {
    pub mapper: Mapper,
}

impl ActivePageTable {
    /// Takes ownership of the boot root table at `frame`, modelled as a
    /// zeroed root whose recursive slot points at itself. The boot stub
    /// keeps its tables inside the kernel image, so `frame` lies in the
    /// kernel range and never collides with allocated frames.
    pub fn bootstrap(frame: Frame) -> (r: ActivePageTable)
        requires
            frame@ < 0x100_0000_0000,
        ensures
            r.mapper.inv(),
            r.mapper.root_frame() == frame@,
            spec_mem_no_huge(r.mapper.mem()),
            r.mapper.is_root_table(frame@ as u64),
            r.mapper.table_frames() =~= Set::<nat>::empty().insert(frame@),
            forall|p: nat|
                spec_p4_index(p) != 511 ==> spec_walk_page(
                    r.mapper.mem(),
                    r.mapper.root_frame(),
                    p,
                ) is None,
    {
        let r = ActivePageTable { mapper: Mapper::new_with_root(frame) };
        proof {
            crate::table::lemma_entry_bit_facts();
            assert forall|p: nat| spec_p4_index(p) != 511 implies spec_walk_page(
                r.mapper.mem(),
                r.mapper.root_frame(),
                p,
            ) is None by {
                let i4 = spec_p4_index(p) as int;
                assert(0 <= i4 < 512);
                assert(r.mapper.mem()[frame@ as u64][i4] == 0);
                assert((0u64 & PRESENT) == 0);
            }
        }
        r
    }

    /// Makes `new_table` the live hierarchy and returns a handle to the
    /// previously live one. On the hardware this is the root-register
    /// write, which also drops every cached translation.
    pub fn switch(&mut self, new_table: InactivePageTable) -> (old_table: InactivePageTable)
        requires
            old(self).mapper.inv(),
            old(self).mapper.is_root_table(new_table.frame_view() as u64),
        ensures
            final(self).mapper.inv(),
            final(self).mapper.root_frame() == new_table.frame_view(),
            final(self).mapper.mem() == old(self).mapper.mem(),
            final(self).mapper.table_frames() == old(self).mapper.table_frames(),
            forall|f: u64|
                final(self).mapper.is_root_table(f) == old(self).mapper.is_root_table(f),
            old_table.frame_view() == old(self).mapper.root_frame(),
    {
        let old_frame = self.mapper.p4_frame();
        self.mapper.set_root(new_table.p4_frame);
        InactivePageTable { p4_frame: old_frame }
    }
}

/// Owns a root table that is not (yet) the live one.
pub struct InactivePageTable {
    p4_frame: Frame,
}

impl InactivePageTable {
    /// The frame holding this table's root.
    pub closed spec fn frame_view(&self) -> nat {
        self.p4_frame@
    }

    /// Builds a fresh inactive hierarchy in `frame`: maps the scratch
    /// page at it, zeroes it through that window, points its recursive
    /// slot at itself, and unmaps the scratch page again.
    pub fn new(
        frame: Frame,
        active_table: &mut ActivePageTable,
        temporary_page: &mut TemporaryPage,
    ) -> (r: InactivePageTable)
        requires
            old(active_table).mapper.inv(),
            spec_mem_no_huge(old(active_table).mapper.mem()),
            old(temporary_page).inv(),
            frame@ < 0x100_0000_0000,
            !old(active_table).mapper.table_frames().contains(frame@),
            !old(temporary_page).frames().contains(frame@),
            spec_walk_page(
                old(active_table).mapper.mem(),
                old(active_table).mapper.root_frame(),
                old(temporary_page).page_index(),
            ) is None,
            old(active_table).mapper.table_frames().disjoint(old(temporary_page).frames()),
            old(temporary_page).avail() >= 3,
        ensures
            r.frame_view() == frame@,
            final(active_table).mapper.inv(),
            final(active_table).mapper.root_frame() == old(active_table).mapper.root_frame(),
            spec_mem_no_huge(final(active_table).mapper.mem()),
            final(active_table).mapper.is_root_table(frame@ as u64),
            forall|f: u64|
                old(active_table).mapper.is_root_table(f) ==> final(active_table).mapper.is_root_table(f),
            forall|i: int|
                0 <= i < 512 && i != 511 ==> #[trigger] final(active_table).mapper.mem()[frame@
                    as u64][i] == 0,
            forall|q: nat|
                crate::page::spec_canonical_page(q) && spec_p4_index(q) != 511 ==> spec_walk_page(
                    final(active_table).mapper.mem(),
                    final(active_table).mapper.root_frame(),
                    q,
                ) == spec_walk_page(
                    old(active_table).mapper.mem(),
                    old(active_table).mapper.root_frame(),
                    q,
                ),
            old(active_table).mapper.table_frames().subset_of(
                final(active_table).mapper.table_frames(),
            ),
            final(active_table).mapper.table_frames().contains(frame@),
            forall|n: nat|
                final(active_table).mapper.table_frames().contains(n) ==> old(active_table).mapper.table_frames().contains(n) || old(temporary_page).frames().contains(n)
                    || n == frame@,
            final(temporary_page).inv(),
            final(temporary_page).page_index() == old(temporary_page).page_index(),
            final(temporary_page).frames().subset_of(old(temporary_page).frames()),
            final(active_table).mapper.table_frames().disjoint(final(temporary_page).frames()),
    {
        let ghost scratch = temporary_page.page_index();
        proof {
            temporary_page.lemma_inv_page();
        }
        let scratch_target = frame.duplicate();
        let keep = frame.duplicate();
        temporary_page.map(scratch_target, active_table);
        proof {
            crate::table::lemma_entry_bit_facts();
            assert(!active_table.mapper.table_frames().contains(frame@));
        }
        active_table.mapper.install_root(frame);
        let ghost mem_i = active_table.mapper.mem();
        proof {
            assert(spec_walk_page(
                active_table.mapper.mem(),
                active_table.mapper.root_frame(),
                scratch,
            ) == Some(frame@));
            active_table.mapper.lemma_walk_implies_chain(scratch);
            assert(mem_i.dom().contains(frame@ as u64));
        }
        temporary_page.unmap(active_table);
        proof {
            assert(active_table.mapper.is_root_table(frame@ as u64));
            assert forall|i: int|
                0 <= i < 512 && i != 511 implies #[trigger] active_table.mapper.mem()[frame@
                as u64][i] == 0 by {
                assert(mem_i[frame@ as u64][i] == 0);
                assert(active_table.mapper.mem()[frame@ as u64][i] == mem_i[frame@ as u64][i]
                    || active_table.mapper.mem()[frame@ as u64][i] == 0);
            }
        }
        InactivePageTable { p4_frame: keep }
    }
}


/// The first frame of a kernel ELF section.
pub open spec fn spec_section_first(s: ElfSection) -> nat {
    s.start as nat / 4096
}

/// The last frame a kernel ELF section touches.
pub open spec fn spec_section_last(s: ElfSection) -> nat {
    (s.start + s.size - 1) as nat / 4096
}

/// Frame `n` belongs to an allocated section of the kernel image.
pub open spec fn spec_in_section_frames(ss: Seq<ElfSection>, n: nat) -> bool {
    exists|j: int|
        0 <= j < ss.len() && (#[trigger] ss[j]).allocated && spec_section_first(ss[j]) <= n
            <= spec_section_last(ss[j])
}

/// Frame `n` belongs to an allocated section with index below `i`, or to
/// the frames already handled of section `i` (those below `next`).
pub open spec fn spec_mapped_so_far(ss: Seq<ElfSection>, i: int, next: nat, n: nat) -> bool {
    ||| exists|j: int|
        0 <= j < i && (#[trigger] ss[j]).allocated && spec_section_first(ss[j]) <= n
            <= spec_section_last(ss[j])
    ||| (0 <= i < ss.len() && ss[i].allocated && spec_section_first(ss[i]) <= n < next)
}

/// Every allocated section starts on a frame boundary, is non-empty, and
/// lies in the identity-mappable low half of the address space.
pub open spec fn spec_sections_wf(ss: Seq<ElfSection>) -> bool {
    forall|j: int|
        0 <= j < ss.len() && (#[trigger] ss[j]).allocated ==> ss[j].start % 4096 == 0
            && ss[j].size >= 1 && ss[j].start + ss[j].size <= 0x8000_0000_0000
}

/// Allocated sections occupy pairwise disjoint frame ranges.
pub open spec fn spec_sections_disjoint(ss: Seq<ElfSection>) -> bool {
    forall|j: int, k: int|
        0 <= j < ss.len() && 0 <= k < ss.len() && j != k && (#[trigger] ss[j]).allocated && (
        #[trigger] ss[k]).allocated ==> spec_section_last(ss[j]) < spec_section_first(ss[k])
            || spec_section_last(ss[k]) < spec_section_first(ss[j])
}

/// Frames an allocated section needs mapped: one per frame it touches.
pub open spec fn spec_section_frames(s: ElfSection) -> nat {
    if s.allocated {
        (spec_section_last(s) - spec_section_first(s) + 1) as nat
    } else {
        0
    }
}

/// Frames still to map for the sections from index `i` on.
pub open spec fn spec_frames_from(ss: Seq<ElfSection>, i: int) -> nat
    decreases ss.len() - i,
{
    if i < 0 || i >= ss.len() {
        0
    } else {
        spec_section_frames(ss[i]) + spec_frames_from(ss, i + 1)
    }
}

/// The frame holding the VGA text buffer.
pub open spec fn spec_vga_frame() -> nat {
    0xb8
}

/// The first frame of the boot-information structure.
pub open spec fn spec_mb_first(bi: BootInfo) -> nat {
    bi.start_address as nat / 4096
}

/// The last frame of the boot-information structure.
pub open spec fn spec_mb_last(bi: BootInfo) -> nat {
    (bi.end_address - 1) as nat / 4096
}

/// Frames the kernel remap identity-maps: the allocated kernel sections,
/// the VGA text buffer, and the boot-information structure.
pub open spec fn spec_remap_target(bi: BootInfo, n: nat) -> bool {
    spec_in_section_frames(bi.sections@, n) || n == spec_vga_frame() || (spec_mb_first(bi) <= n
        <= spec_mb_last(bi))
}

/// What a `BootInfo` must look like for the remap to be meaningful: well
/// formed, disjoint sections, a boot-information range disjoint from the
/// kernel image and the VGA frame, everything in the low half.
pub open spec fn spec_remap_input_wf(bi: BootInfo) -> bool {
    &&& spec_sections_wf(bi.sections@)
    &&& spec_sections_disjoint(bi.sections@)
    &&& 0 < bi.start_address < bi.end_address
    &&& bi.end_address <= 0x8000_0000_0000
    &&& !spec_in_section_frames(bi.sections@, spec_vga_frame())
    &&& !(spec_mb_first(bi) <= spec_vga_frame() <= spec_mb_last(bi))
    &&& forall|n: nat|
        spec_in_section_frames(bi.sections@, n) ==> !(spec_mb_first(bi) <= n <= spec_mb_last(bi))
}

/// Frame budget of the remap: the new root, the three scratch-table
/// frames, and at most three fresh tables per mapped frame.
pub open spec fn spec_remap_frame_demand(bi: BootInfo) -> nat {
    (4 + 3 * (spec_frames_from(bi.sections@, 0) + 1 + (spec_mb_last(bi) - spec_mb_first(bi)
        + 1))) as nat
}

proof fn lemma_frames_from_unfold(ss: Seq<ElfSection>, i: int)
    requires
        0 <= i < ss.len(),
    ensures
        spec_frames_from(ss, i) == spec_section_frames(ss[i]) + spec_frames_from(ss, i + 1),
{
}

proof fn lemma_section_frame_bounds(s: ElfSection)
    requires
        s.allocated,
        s.start % 4096 == 0,
        s.size >= 1,
        s.start + s.size <= 0x8000_0000_0000,
    ensures
        spec_section_first(s) <= spec_section_last(s),
        spec_section_last(s) < 0x8_0000_0000,
        spec_section_first(s) * 4096 == s.start,
{
    assert(s.start as nat / 4096 <= (s.start + s.size - 1) as nat / 4096) by (nonlinear_arith)
        requires s.size >= 1;
    assert((s.start + s.size - 1) as nat / 4096 < 0x8_0000_0000) by (nonlinear_arith)
        requires ((s.start + s.size - 1) as nat) < 0x8000_0000_0000;
    assert(s.start as nat / 4096 * 4096 == s.start) by (nonlinear_arith)
        requires s.start % 4096 == 0;
}

/// Maps every frame of every allocated kernel section identically into
/// the hierarchy the mapper currently edits, with flags derived per
/// section.
#[verifier::rlimit(100)]
fn remap_sections<A: FrameAllocator>(
    active_table: &mut ActivePageTable,
    allocator: &mut A,
    boot_info: &BootInfo,
    root: Ghost<u64>,
    keep_root: Ghost<u64>,
    reserve: Ghost<nat>,
)
    requires
        old(active_table).mapper.inv(),
        old(allocator).inv(),
        spec_mem_no_huge(old(active_table).mapper.mem()),
        old(active_table).mapper.root_frame() == root@,
        old(active_table).mapper.is_root_table(keep_root@),
        old(active_table).mapper.table_frames().disjoint(old(allocator).future()),
        spec_remap_input_wf(*boot_info),
        old(allocator).avail() >= 3 * (spec_frames_from(boot_info.sections@, 0) + 1 + (
        spec_mb_last(*boot_info) - spec_mb_first(*boot_info) + 1)) + reserve@,
        forall|q: nat|
            spec_canonical_page(q) && spec_p4_index(q) != 511 ==> spec_walk_page(
                old(active_table).mapper.mem(),
                root@,
                q,
            ) is None,
    ensures
        final(active_table).mapper.inv(),
        final(allocator).inv(),
        spec_mem_no_huge(final(active_table).mapper.mem()),
        final(active_table).mapper.root_frame() == root@,
        final(active_table).mapper.is_root_table(keep_root@),
        final(active_table).mapper.table_frames().disjoint(final(allocator).future()),
        final(allocator).future().subset_of(old(allocator).future()),
        final(allocator).avail() >= 3 * (1 + (spec_mb_last(*boot_info) - spec_mb_first(*boot_info)
            + 1)) + reserve@,
        forall|q: nat|
            spec_canonical_page(q) && spec_p4_index(q) != 511 ==> spec_walk_page(
                final(active_table).mapper.mem(),
                root@,
                q,
            ) == (if spec_in_section_frames(boot_info.sections@, q) {
                Some(q)
            } else {
                None::<nat>
            }),
{
    let ghost bi = *boot_info;
    let ghost nf = root@;
    let ns = boot_info.sections.len();
    proof {
        assert forall|q: nat| !spec_mapped_so_far(bi.sections@, 0, 0, q) by {}
    }
    let mut i: usize = 0;
    while i < ns
        invariant
            ns == boot_info.sections@.len(),
            i <= ns,
            spec_remap_input_wf(bi),
            bi == *boot_info,
            allocator.inv(),
            active_table.mapper.inv(),
            spec_mem_no_huge(active_table.mapper.mem()),
            active_table.mapper.root_frame() == nf,
            active_table.mapper.is_root_table(keep_root@),
            active_table.mapper.table_frames().disjoint(allocator.future()),
            allocator.future().subset_of(old(allocator).future()),
            allocator.avail() >= 3 * (spec_frames_from(bi.sections@, i as int) + 1 + (spec_mb_last(
                bi,
            ) - spec_mb_first(bi) + 1)) + reserve@,
            forall|q: nat|
                spec_canonical_page(q) && spec_p4_index(q) != 511 ==> spec_walk_page(
                    active_table.mapper.mem(),
                    nf,
                    q,
                ) == (if spec_mapped_so_far(bi.sections@, i as int, 0, q) {
                    Some(q)
                } else {
                    None::<nat>
                }),
        decreases ns - i,
    {
        let section = boot_info.sections[i];
        if section.allocated {
            let flags = EntryFlags::from_elf_section_flags(&section);
            proof {
                crate::table::lemma_entry_bit_facts();
                lemma_section_frame_bounds(section);
                lemma_frames_from_unfold(bi.sections@, i as int);
            }
            let start_frame = Frame::containing_address(section.start);
            let end_frame = Frame::containing_address(section.start + section.size - 1);
            let mut n = start_frame.index();
            let last = end_frame.index();
            while n <= last
                invariant
                    ns == boot_info.sections@.len(),
                    i < ns,
                    bi == *boot_info,
                    spec_remap_input_wf(bi),
                    section == bi.sections@[i as int],
                    section.allocated,
                    flags@ == crate::table::spec_section_flags(section),
                    flags@ & crate::table::HUGE_PAGE == 0,
                    spec_section_first(section) <= n as nat,
                    n as nat <= spec_section_last(section) + 1,
                    last as nat == spec_section_last(section),
                    last < 0x8_0000_0000,
                    allocator.inv(),
                    active_table.mapper.inv(),
                    spec_mem_no_huge(active_table.mapper.mem()),
                    active_table.mapper.root_frame() == nf,
                    active_table.mapper.is_root_table(keep_root@),
                    active_table.mapper.table_frames().disjoint(allocator.future()),
                    allocator.future().subset_of(old(allocator).future()),
                    allocator.avail() >= 3 * ((spec_section_last(section) + 1 - n as nat)
                        + spec_frames_from(bi.sections@, i as int + 1) + 1 + (spec_mb_last(bi)
                        - spec_mb_first(bi) + 1)) + reserve@,
                    forall|q: nat|
                        spec_canonical_page(q) && spec_p4_index(q) != 511 ==> spec_walk_page(
                            active_table.mapper.mem(),
                            nf,
                            q,
                        ) == (if spec_mapped_so_far(bi.sections@, i as int, n as nat, q) {
                            Some(q)
                        } else {
                            None::<nat>
                        }),
                decreases last + 1 - n,
            {
                proof {
                    crate::page::lemma_bit35_low(n as nat);
                    assert(!spec_mapped_so_far(bi.sections@, i as int, n as nat, n as nat));
                }
                active_table.mapper.identity_map(Frame::new(n), flags, allocator);
                proof {
                    assert forall|q: nat|
                        spec_canonical_page(q) && spec_p4_index(q) != 511 implies spec_walk_page(
                        active_table.mapper.mem(),
                        nf,
                        q,
                    ) == (if spec_mapped_so_far(bi.sections@, i as int, n as nat + 1, q) {
                        Some(q)
                    } else {
                        None::<nat>
                    }) by {
                        if q != n as nat {
                            assert(spec_mapped_so_far(bi.sections@, i as int, n as nat + 1, q)
                                == spec_mapped_so_far(bi.sections@, i as int, n as nat, q));
                        }
                    }
                }
                n = n + 1;
            }
            proof {
                assert forall|q: nat|
                    #[trigger] spec_mapped_so_far(bi.sections@, i as int + 1, 0, q)
                        == spec_mapped_so_far(bi.sections@, i as int, last as nat + 1, q) by {
                    lemma_mapped_so_far_step(bi.sections@, i as int, last as nat + 1, q);
                }
            }
        } else {
            proof {
                lemma_frames_from_unfold(bi.sections@, i as int);
                assert forall|q: nat|
                    #[trigger] spec_mapped_so_far(bi.sections@, i as int + 1, 0, q)
                        == spec_mapped_so_far(bi.sections@, i as int, 0, q) by {
                    lemma_mapped_so_far_skip(bi.sections@, i as int, q);
                }
            }
        }
        i = i + 1;
    }
    proof {
        assert forall|q: nat|
            #[trigger] spec_mapped_so_far(bi.sections@, ns as int, 0, q) == spec_in_section_frames(
            bi.sections@,
            q,
        ) by {
            lemma_mapped_all(bi.sections@, q);
        }
    }
}

/// Maps the frames of the boot-information structure identically,
/// present and writable.
#[verifier::rlimit(100)]
fn remap_boot_info<A: FrameAllocator>(
    active_table: &mut ActivePageTable,
    allocator: &mut A,
    boot_info: &BootInfo,
    root: Ghost<u64>,
    keep_root: Ghost<u64>,
    reserve: Ghost<nat>,
)
    requires
        old(active_table).mapper.inv(),
        old(allocator).inv(),
        spec_mem_no_huge(old(active_table).mapper.mem()),
        old(active_table).mapper.root_frame() == root@,
        old(active_table).mapper.is_root_table(keep_root@),
        old(active_table).mapper.table_frames().disjoint(old(allocator).future()),
        spec_remap_input_wf(*boot_info),
        old(allocator).avail() >= 3 * (1 + (spec_mb_last(*boot_info) - spec_mb_first(*boot_info)
            + 1)) + reserve@,
        forall|q: nat|
            spec_canonical_page(q) && spec_p4_index(q) != 511 ==> spec_walk_page(
                old(active_table).mapper.mem(),
                root@,
                q,
            ) == (if spec_in_section_frames(boot_info.sections@, q) {
                Some(q)
            } else {
                None::<nat>
            }),
    ensures
        final(active_table).mapper.inv(),
        final(allocator).inv(),
        spec_mem_no_huge(final(active_table).mapper.mem()),
        final(active_table).mapper.root_frame() == root@,
        final(active_table).mapper.is_root_table(keep_root@),
        final(active_table).mapper.table_frames().disjoint(final(allocator).future()),
        final(allocator).future().subset_of(old(allocator).future()),
        final(allocator).avail() >= reserve@,
        forall|q: nat|
            spec_canonical_page(q) && spec_p4_index(q) != 511 ==> spec_walk_page(
                final(active_table).mapper.mem(),
                root@,
                q,
            ) == (if spec_remap_target(*boot_info, q) {
                Some(q)
            } else {
                None::<nat>
            }),
{
    let ghost bi = *boot_info;
    let ghost nf = root@;
    // The VGA text buffer first: one writable frame.
    proof {
        crate::table::lemma_entry_bit_facts();
    }
    let vga_buffer_frame = Frame::containing_address(0xb8000);
    active_table.mapper.identity_map(
        vga_buffer_frame,
        EntryFlags::from_bits_truncate(crate::table::WRITABLE),
        allocator,
    );
    let mb_start = Frame::containing_address(boot_info.start_address);
    let mb_end = Frame::containing_address(boot_info.end_address - 1);
    let mut n = mb_start.index();
    let last = mb_end.index();
    proof {
        assert(((bi.end_address - 1) as nat) / 4096 < 0x8_0000_0000) by (nonlinear_arith)
            requires ((bi.end_address - 1) as nat) < 0x8000_0000_0000;
        assert(spec_mb_first(bi) <= spec_mb_last(bi)) by (nonlinear_arith)
            requires 0 < bi.start_address < bi.end_address;
    }
    while n <= last
        invariant
            bi == *boot_info,
            spec_remap_input_wf(bi),
            spec_mb_first(bi) <= n as nat,
            n as nat <= spec_mb_last(bi) + 1,
            last as nat == spec_mb_last(bi),
            last < 0x8_0000_0000,
            allocator.inv(),
            active_table.mapper.inv(),
            spec_mem_no_huge(active_table.mapper.mem()),
            active_table.mapper.root_frame() == nf,
            active_table.mapper.is_root_table(keep_root@),
            active_table.mapper.table_frames().disjoint(allocator.future()),
            allocator.future().subset_of(old(allocator).future()),
            allocator.avail() >= 3 * (spec_mb_last(bi) + 1 - n as nat) + reserve@,
            forall|q: nat|
                spec_canonical_page(q) && spec_p4_index(q) != 511 ==> spec_walk_page(
                    active_table.mapper.mem(),
                    nf,
                    q,
                ) == (if spec_in_section_frames(bi.sections@, q) || q == spec_vga_frame() || (
                spec_mb_first(bi) <= q < n as nat) {
                    Some(q)
                } else {
                    None::<nat>
                }),
        decreases last + 1 - n,
    {
        proof {
            crate::table::lemma_entry_bit_facts();
            crate::page::lemma_bit35_low(n as nat);
            assert(!spec_in_section_frames(bi.sections@, n as nat)) by {
                if spec_in_section_frames(bi.sections@, n as nat) {
                    assert(!(spec_mb_first(bi) <= n as nat <= spec_mb_last(bi)));
                }
            }
        }
        active_table.mapper.identity_map(
            Frame::new(n),
            EntryFlags::from_bits_truncate(crate::table::PRESENT | crate::table::WRITABLE),
            allocator,
        );
        n = n + 1;
    }
}

/// Builds a brand-new page-table hierarchy for the running kernel and
/// switches to it: identity-maps every allocated ELF section (with
/// permission flags derived per section), the VGA text buffer and the
/// boot-information structure into a fresh table, makes that table the
/// live one, and turns the page that held the old root into a guard
/// page. The old mapping is modelled as empty: the new hierarchy maps
/// exactly the remap targets, minus the guard page.
#[verifier::rlimit(100)]
pub fn remap_kernel<A: FrameAllocator>(
    active_table: ActivePageTable,
    allocator: &mut A,
    boot_info: &BootInfo,
) -> (r: ActivePageTable)
    requires
        active_table.mapper.inv(),
        spec_mem_no_huge(active_table.mapper.mem()),
        old(allocator).inv(),
        active_table.mapper.table_frames().disjoint(old(allocator).future()),
        forall|p: nat|
            spec_p4_index(p) != 511 ==> spec_walk_page(
                active_table.mapper.mem(),
                active_table.mapper.root_frame(),
                p,
            ) is None,
        spec_remap_input_wf(*boot_info),
        spec_in_section_frames(boot_info.sections@, active_table.mapper.root_frame() as nat),
        old(allocator).avail() >= spec_remap_frame_demand(*boot_info),
    ensures
        r.mapper.inv(),
        final(allocator).inv(),
        r.mapper.table_frames().disjoint(final(allocator).future()),
        final(allocator).future().subset_of(old(allocator).future()),
        spec_mem_no_huge(r.mapper.mem()),
        // The new root's recursive slot points at the root itself,
        // present and writable.
        r.mapper.mem()[r.mapper.root_frame()][511] == spec_entry_value(
            r.mapper.root_frame() as nat,
            crate::table::PRESENT | crate::table::WRITABLE,
        ),
        r.mapper.root_frame() != active_table.mapper.root_frame(),
        old(allocator).future().contains(r.mapper.root_frame() as nat),
        final(allocator).avail() + spec_remap_frame_demand(*boot_info) >= old(allocator).avail(),
        // The new hierarchy maps exactly the remap targets, identically,
        // except the old root's page, which is now a guard page.
        forall|q: nat|
            spec_canonical_page(q) && spec_p4_index(q) != 511 ==> spec_walk_page(
                r.mapper.mem(),
                r.mapper.root_frame(),
                q,
            ) == (if spec_remap_target(*boot_info, q) && q != active_table.mapper.root_frame() as nat {
                Some(q)
            } else {
                None::<nat>
            }),
{
    let ghost bi = *boot_info;
    let ghost old_root = active_table.mapper.root_frame();
    let old_root_frame = active_table.mapper.p4_frame();
    proof {
        let j = choose|j: int|
            0 <= j < bi.sections@.len() && (#[trigger] bi.sections@[j]).allocated
                && spec_section_first(bi.sections@[j]) <= old_root as nat <= spec_section_last(
                bi.sections@[j],
            );
        lemma_section_frame_bounds(bi.sections@[j]);
        assert((old_root as nat) < 0x8_0000_0000);
    }
    let ghost reserve = (old(allocator).avail() - spec_remap_frame_demand(*boot_info)) as nat;
    let (mut active_table, new_table) = prepare_new_table(active_table, allocator, boot_info);
    let ghost nf = new_table.frame_view() as u64;
    // Identity-map the kernel sections, then the VGA text buffer (one
    // frame, writable), then the boot-information structure.
    remap_sections(&mut active_table, allocator, boot_info, Ghost(nf), Ghost(old_root), Ghost(reserve));
    remap_boot_info(&mut active_table, allocator, boot_info, Ghost(nf), Ghost(old_root), Ghost(reserve));
    // Switch to the new hierarchy (restoring the old root's recursive
    // addressing first), then turn the page that held the old root into
    // a guard page: a stray access through it now faults.
    switch_and_guard(active_table, allocator, new_table, old_root_frame, boot_info, Ghost(nf))
}

/// The start of the remap: reserve the scratch page's table frames,
/// allocate a frame for the new root, build the inactive hierarchy in
/// it, and retarget the mapper at it (the recursive-slot override).
#[verifier::rlimit(100)]
fn prepare_new_table<A: FrameAllocator>(
    active_table: ActivePageTable,
    allocator: &mut A,
    boot_info: &BootInfo,
) -> (r: (ActivePageTable, InactivePageTable))
    requires
        active_table.mapper.inv(),
        spec_mem_no_huge(active_table.mapper.mem()),
        old(allocator).inv(),
        active_table.mapper.table_frames().disjoint(old(allocator).future()),
        forall|p: nat|
            spec_p4_index(p) != 511 ==> spec_walk_page(
                active_table.mapper.mem(),
                active_table.mapper.root_frame(),
                p,
            ) is None,
        spec_remap_input_wf(*boot_info),
        old(allocator).avail() >= spec_remap_frame_demand(*boot_info),
    ensures
        r.0.mapper.inv(),
        final(allocator).inv(),
        spec_mem_no_huge(r.0.mapper.mem()),
        r.0.mapper.root_frame() == r.1.frame_view(),
        r.1.frame_view() < 0x100_0000_0000,
        r.1.frame_view() != active_table.mapper.root_frame(),
        old(allocator).future().contains(r.1.frame_view()),
        r.0.mapper.is_root_table(active_table.mapper.root_frame()),
        r.0.mapper.table_frames().disjoint(final(allocator).future()),
        final(allocator).future().subset_of(old(allocator).future()),
        final(allocator).avail() + 4 >= old(allocator).avail(),
        forall|q: nat|
            spec_canonical_page(q) && spec_p4_index(q) != 511 ==> spec_walk_page(
                r.0.mapper.mem(),
                r.0.mapper.root_frame(),
                q,
            ) is None,
{
    let ghost old_root = active_table.mapper.root_frame();
    let ghost bi = *boot_info;
    let mut active_table = active_table;
    proof {
        active_table.mapper.lemma_root_is_root_table();
        active_table.mapper.lemma_root_table_entry(old_root);
        assert(spec_mb_first(bi) <= spec_mb_last(bi)) by (nonlinear_arith)
            requires 0 < bi.start_address < bi.end_address;
        assert(old(allocator).avail() >= 4 + 3 * (spec_frames_from(bi.sections@, 0) + 1 + (
        spec_mb_last(bi) - spec_mb_first(bi) + 1)));
    }
    let mut scratch_page = TemporaryPage::new(Page::new(0xabadcafe), allocator);
    let frame = allocator.alloc_frame().unwrap();
    let nf = frame.index();
    let new_table = InactivePageTable::new(frame, &mut active_table, &mut scratch_page);
    proof {
        active_table.mapper.lemma_root_table_entry(nf);
    }
    active_table.mapper.set_root(Frame::new(nf));
    proof {
        crate::table::lemma_entry_bit_facts();
        assert forall|q: nat| spec_canonical_page(q) && spec_p4_index(q) != 511 implies
            spec_walk_page(active_table.mapper.mem(), nf, q) is None by {
            let i4 = spec_p4_index(q) as int;
            assert(0 <= i4 < 512);
            assert(active_table.mapper.mem()[nf][i4] == 0);
            assert((0u64 & crate::table::PRESENT) == 0);
        }
    }
    (active_table, new_table)
}

/// The end of the remap: restore the old recursive addressing, perform
/// the hardware-level switch to the new hierarchy, and unmap the page
/// that held the old root so that stray accesses through it fault.
#[verifier::rlimit(100)]
fn switch_and_guard<A: FrameAllocator>(
    active_table: ActivePageTable,
    allocator: &mut A,
    new_table: InactivePageTable,
    old_root_frame: Frame,
    boot_info: &BootInfo,
    root: Ghost<u64>,
) -> (r: ActivePageTable)
    requires
        active_table.mapper.inv(),
        old(allocator).inv(),
        spec_mem_no_huge(active_table.mapper.mem()),
        active_table.mapper.root_frame() == root@,
        new_table.frame_view() == root@,
        active_table.mapper.is_root_table(old_root_frame@ as u64),
        old_root_frame@ < 0x8_0000_0000,
        old_root_frame@ != root@,
        active_table.mapper.table_frames().disjoint(old(allocator).future()),
        spec_remap_input_wf(*boot_info),
        spec_remap_target(*boot_info, old_root_frame@),
        forall|q: nat|
            spec_canonical_page(q) && spec_p4_index(q) != 511 ==> spec_walk_page(
                active_table.mapper.mem(),
                root@,
                q,
            ) == (if spec_remap_target(*boot_info, q) {
                Some(q)
            } else {
                None::<nat>
            }),
    ensures
        r.mapper.inv(),
        final(allocator).inv(),
        r.mapper.table_frames().disjoint(final(allocator).future()),
        final(allocator).future().subset_of(old(allocator).future()),
        final(allocator).avail() == old(allocator).avail(),
        spec_mem_no_huge(r.mapper.mem()),
        r.mapper.root_frame() == root@,
        r.mapper.mem()[root@][511] == spec_entry_value(
            root@ as nat,
            crate::table::PRESENT | crate::table::WRITABLE,
        ),
        forall|q: nat|
            spec_canonical_page(q) && spec_p4_index(q) != 511 ==> spec_walk_page(
                r.mapper.mem(),
                root@,
                q,
            ) == (if spec_remap_target(*boot_info, q) && q != old_root_frame@ {
                Some(q)
            } else {
                None::<nat>
            }),
{
    let mut active_table = active_table;
    let ghost old_root = old_root_frame@;
    proof {
        active_table.mapper.lemma_root_is_root_table();
    }
    active_table.mapper.set_root(old_root_frame.duplicate());
    let old_table = active_table.switch(new_table);
    proof {
        crate::page::lemma_bit35_low(old_root);
        assert((old_root as nat) * 4096 < 0x8000_0000_0000) by (nonlinear_arith)
            requires old_root < 0x8_0000_0000;
        active_table.mapper.lemma_walk_implies_chain(old_root);
    }
    let old_p4_page = Page::containing_address(old_root_frame.start_address());
    proof {
        assert(old_p4_page@ == old_root) by {
            crate::frame::lemma_frame_containing_start_address(old_root_frame);
        }
    }
    active_table.mapper.unmap(old_p4_page, allocator);
    proof {
        active_table.mapper.lemma_root_table_entry(root@);
    }
    active_table
}

/// Finishing section `i` (its frames mapped up to `stop`, one past its
/// last frame) is the same as having completed the sections below `i+1`.
proof fn lemma_mapped_so_far_step(ss: Seq<ElfSection>, i: int, stop: nat, q: nat)
    requires
        0 <= i < ss.len(),
        ss[i].allocated,
        stop == spec_section_last(ss[i]) + 1,
    ensures
        spec_mapped_so_far(ss, i + 1, 0, q) == spec_mapped_so_far(ss, i, stop, q),
{
    if spec_mapped_so_far(ss, i + 1, 0, q) {
        let j = choose|j: int|
            0 <= j < i + 1 && (#[trigger] ss[j]).allocated && spec_section_first(ss[j]) <= q
                <= spec_section_last(ss[j]);
        if j < i {
            assert(spec_mapped_so_far(ss, i, stop, q));
        }
    }
    if spec_mapped_so_far(ss, i, stop, q) {
        if exists|j: int|
            0 <= j < i && (#[trigger] ss[j]).allocated && spec_section_first(ss[j]) <= q
                <= spec_section_last(ss[j]) {
            let j = choose|j: int|
                0 <= j < i && (#[trigger] ss[j]).allocated && spec_section_first(ss[j]) <= q
                    <= spec_section_last(ss[j]);
            assert(0 <= j < i + 1 && ss[j].allocated && spec_section_first(ss[j]) <= q
                <= spec_section_last(ss[j]));
        } else {
            assert(ss[i].allocated && spec_section_first(ss[i]) <= q <= spec_section_last(ss[i]));
            assert(0 <= i < i + 1);
        }
    }
}

/// A section that occupies no memory adds nothing to the mapped set.
proof fn lemma_mapped_so_far_skip(ss: Seq<ElfSection>, i: int, q: nat)
    requires
        0 <= i < ss.len(),
        !ss[i].allocated,
    ensures
        spec_mapped_so_far(ss, i + 1, 0, q) == spec_mapped_so_far(ss, i, 0, q),
{
    if spec_mapped_so_far(ss, i + 1, 0, q) {
        let j = choose|j: int|
            0 <= j < i + 1 && (#[trigger] ss[j]).allocated && spec_section_first(ss[j]) <= q
                <= spec_section_last(ss[j]);
        assert(j != i);
        assert(spec_mapped_so_far(ss, i, 0, q));
    }
    if spec_mapped_so_far(ss, i, 0, q) {
        let j = choose|j: int|
            0 <= j < i && (#[trigger] ss[j]).allocated && spec_section_first(ss[j]) <= q
                <= spec_section_last(ss[j]);
        assert(0 <= j < i + 1 && ss[j].allocated && spec_section_first(ss[j]) <= q
            <= spec_section_last(ss[j]));
    }
}


/// Having walked past every section, the mapped set is exactly the
/// frames of the allocated sections.
proof fn lemma_mapped_all(ss: Seq<ElfSection>, q: nat)
    ensures
        spec_mapped_so_far(ss, ss.len() as int, 0, q) == spec_in_section_frames(ss, q),
{
}

} // verus!
