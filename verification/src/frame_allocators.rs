//! The pluggable physical-frame allocation interface, and the
//! boot-memory-map allocator behind it.

use vstd::prelude::*;
use vstd::set_lib::lemma_len_subset;
use crate::boot::MemoryArea;
use crate::frame::Frame;

verus! {

/// A source of unused physical frames.
///
/// The specification pins down what every allocator of the subsystem
/// guarantees: each frame handed out was still pending (in `future()`)
/// and is never handed out again, and `avail()` counts allocations that
/// are still certain to succeed. Page-table code relies on frames from
/// `future()` being fresh — never frames it already uses.
pub trait FrameAllocator: Sized {
    /// The allocator's internal well-formedness.
    spec fn inv(&self) -> bool;

    /// How many further allocations are guaranteed to succeed.
    spec fn avail(&self) -> nat;

    /// The indices of every frame the allocator may still hand out.
    spec fn future(&self) -> Set<nat>;

    /// Hands out an unused frame, or `None` when none is left.
    fn alloc_frame(&mut self) -> (r: Option<Frame>)
        requires
            old(self).inv(),
        ensures
            final(self).inv(),
            final(self).future().subset_of(old(self).future()),
            match r {
                Some(f) => {
                    &&& old(self).future().contains(f@)
                    &&& !final(self).future().contains(f@)
                    &&& f@ < 0x100_0000_0000
                    &&& final(self).avail() + 1 >= old(self).avail()
                },
                None => old(self).avail() == 0 && final(self).avail() == 0,
            },
    ;

    /// Returns a frame to the allocator. Frame reclamation is a known,
    /// accepted gap in this subsystem — nothing in the crate calls this,
    /// and no implementation promises anything of it.
    fn dealloc_frame(&mut self, frame: Frame);
}

/// The first frame of a boot-reported memory area.
pub open spec fn spec_area_first(a: MemoryArea) -> nat {
    a.base as nat / 4096
}

/// The last frame a boot-reported memory area touches.
pub open spec fn spec_area_last(a: MemoryArea) -> nat {
    (a.base + a.length - 1) as nat / 4096
}

/// Frame `n` lies inside one of the reported areas.
pub open spec fn spec_in_areas(areas: Seq<MemoryArea>, n: nat) -> bool {
    exists|i: int|
        0 <= i < areas.len() && spec_area_first(#[trigger] areas[i]) <= n <= spec_area_last(
            areas[i],
        )
}

/// Frame `n` falls into the kernel-image or boot-information range.
pub open spec fn spec_frame_reserved(
    kernel_first: nat,
    kernel_last: nat,
    multiboot_first: nat,
    multiboot_last: nat,
    n: nat,
) -> bool {
    (kernel_first <= n <= kernel_last) || (multiboot_first <= n <= multiboot_last)
}

/// Every reported area holds at least one byte and stays below the
/// architectural 2^52 physical-address limit.
pub open spec fn spec_areas_wf(areas: Seq<MemoryArea>) -> bool {
    forall|i: int|
        0 <= i < areas.len() ==> (#[trigger] areas[i]).length >= 1 && areas[i].base
            + areas[i].length <= 0x10_0000_0000_0000
}

/// The largest frame any of the areas touches.
pub open spec fn spec_max_last(areas: Seq<MemoryArea>) -> nat
    decreases areas.len(),
{
    if areas.len() == 0 {
        0
    } else {
        let rest = spec_max_last(areas.drop_last());
        if spec_area_last(areas.last()) > rest {
            spec_area_last(areas.last())
        } else {
            rest
        }
    }
}

proof fn lemma_max_last_bound(areas: Seq<MemoryArea>, i: int)
    requires
        0 <= i < areas.len(),
    ensures
        spec_area_last(areas[i]) <= spec_max_last(areas),
    decreases areas.len(),
{
    if i + 1 == areas.len() {
        assert(areas.last() == areas[i]);
    } else {
        lemma_max_last_bound(areas.drop_last(), i);
        assert(areas.drop_last()[i] == areas[i]);
    }
}

/// The set of naturals below `k` is finite.
proof fn lemma_nat_below_finite(k: nat)
    ensures
        Set::new(|n: nat| n < k).finite(),
    decreases k,
{
    if k == 0 {
        assert(Set::new(|n: nat| n < 0) =~= Set::<nat>::empty());
    } else {
        lemma_nat_below_finite((k - 1) as nat);
        assert(Set::new(|n: nat| n < k) =~= Set::new(|n: nat| n < k - 1).insert((k - 1) as nat));
    }
}

/// Hands out frames from the boot-reported memory map in ascending
/// order, skipping the kernel image and the boot-information structure,
/// and hopping to the next area (lowest base first) when the current one
/// runs out.
pub struct AreaFrameAllocator {
    next_free_frame: Frame,
    current_area: Option<MemoryArea>,
    areas: Vec<MemoryArea>,
    kernel_start: Frame,
    kernel_end: Frame,
    multiboot_start: Frame,
    multiboot_end: Frame,
}

impl AreaFrameAllocator {
    /// The next frame index the allocator will consider.
    pub closed spec fn cursor(&self) -> nat {
        self.next_free_frame@
    }

    /// The memory map the allocator draws from.
    pub closed spec fn memory_areas(&self) -> Seq<MemoryArea> {
        self.areas@
    }

    pub closed spec fn kernel_first(&self) -> nat {
        self.kernel_start@
    }

    pub closed spec fn kernel_last(&self) -> nat {
        self.kernel_end@
    }

    pub closed spec fn multiboot_first(&self) -> nat {
        self.multiboot_start@
    }

    pub closed spec fn multiboot_last(&self) -> nat {
        self.multiboot_end@
    }

    /// Frame `n` is off limits: kernel image or boot information.
    pub open spec fn reserved(&self, n: nat) -> bool {
        spec_frame_reserved(
            self.kernel_first(),
            self.kernel_last(),
            self.multiboot_first(),
            self.multiboot_last(),
            n,
        )
    }

    /// What `future()` means for this allocator: exactly the frames at
    /// or above the cursor that lie in some reported area and are not
    /// reserved. Everything the trait promises of `alloc_frame` is
    /// grounded in this set.
    pub proof fn lemma_future_characterization(&self)
        ensures
            self.future() =~= Set::new(
                |n: nat|
                    self.cursor() <= n && spec_in_areas(self.memory_areas(), n) && !self.reserved(
                        n,
                    ),
            ),
    {
    }

    /// No frame the allocator will ever yield falls into the kernel
    /// image or boot-information range.
    pub proof fn lemma_never_yields_reserved(&self)
        ensures
            forall|n: nat| #[trigger] self.future().contains(n) ==> !self.reserved(n),
    {
    }

    proof fn lemma_future_finite(&self)
        requires
            spec_areas_wf(self.memory_areas()),
        ensures
            self.future().finite(),
            self.future().len() == 0 ==> self.future().is_empty(),
    {
        let bound = spec_max_last(self.memory_areas()) + 1;
        lemma_nat_below_finite(bound);
        assert forall|n: nat| self.future().contains(n) implies Set::new(|m: nat| m < bound)
            .contains(n) by {
            let i = choose|i: int|
                0 <= i < self.memory_areas().len() && spec_area_first(
                    #[trigger] self.memory_areas()[i],
                ) <= n <= spec_area_last(self.memory_areas()[i]);
            lemma_max_last_bound(self.memory_areas(), i);
        }
        lemma_len_subset(self.future(), Set::new(|m: nat| m < bound));
        if self.future().len() == 0 {
            self.future().lemma_len0_is_empty();
        }
    }

    /// Sets up an allocator over `memory_areas` that will skip the
    /// kernel image `[kernel_start, kernel_end]` and the boot
    /// information `[multiboot_start, multiboot_end]` (byte addresses).
    pub fn new(
        kernel_start: u64,
        kernel_end: u64,
        multiboot_start: u64,
        multiboot_end: u64,
        memory_areas: Vec<MemoryArea>,
    ) -> (r: AreaFrameAllocator)
        requires
            spec_areas_wf(memory_areas@),
        ensures
            r.inv(),
            r.memory_areas() == memory_areas@,
            r.kernel_first() == kernel_start as nat / 4096,
            r.kernel_last() == kernel_end as nat / 4096,
            r.multiboot_first() == multiboot_start as nat / 4096,
            r.multiboot_last() == multiboot_end as nat / 4096,
            r.future() =~= Set::new(
                |n: nat| spec_in_areas(memory_areas@, n) && !r.reserved(n),
            ),
    {
        proof {
            assert((kernel_end as nat) / 4096 < 0x10_0000_0000_0000) by (nonlinear_arith)
                requires (kernel_end as nat) <= 0xffff_ffff_ffff_ffff;
            assert((multiboot_end as nat) / 4096 < 0x10_0000_0000_0000) by (nonlinear_arith)
                requires (multiboot_end as nat) <= 0xffff_ffff_ffff_ffff;
        }
        let mut allocator = AreaFrameAllocator {
            next_free_frame: Frame::containing_address(0),
            current_area: None,
            areas: memory_areas,
            kernel_start: Frame::containing_address(kernel_start),
            kernel_end: Frame::containing_address(kernel_end),
            multiboot_start: Frame::containing_address(multiboot_start),
            multiboot_end: Frame::containing_address(multiboot_end),
        };
        allocator.next_area();
        allocator
    }

    /// Picks, among the areas that still reach past the cursor, the one
    /// with the lowest base, and pulls the cursor up to its start. The
    /// pending-frame set is untouched: the cursor only ever jumps over
    /// frames below every remaining area.
    fn next_area(&mut self)
        requires
            spec_areas_wf(old(self).memory_areas()),
        ensures
            final(self).memory_areas() == old(self).memory_areas(),
            final(self).kernel_first() == old(self).kernel_first(),
            final(self).kernel_last() == old(self).kernel_last(),
            final(self).multiboot_first() == old(self).multiboot_first(),
            final(self).multiboot_last() == old(self).multiboot_last(),
            final(self).cursor() >= old(self).cursor(),
            final(self).future() =~= old(self).future(),
            match final(self).area() {
                Some(a) => {
                    &&& final(self).memory_areas().contains(a)
                    &&& spec_area_first(a) <= final(self).cursor()
                    &&& final(self).cursor() <= spec_area_last(a)
                    &&& forall|i: int|
                        0 <= i < final(self).memory_areas().len() && spec_area_last(
                            #[trigger] final(self).memory_areas()[i],
                        ) >= old(self).cursor() ==> a.base <= final(self).memory_areas()[i].base
                },
                None => {
                    &&& forall|i: int|
                        0 <= i < final(self).memory_areas().len() ==> spec_area_last(
                            #[trigger] final(self).memory_areas()[i],
                        ) < final(self).cursor()
                    &&& final(self).cursor() == old(self).cursor()
                },
            },
    {
        let ghost c0 = self.cursor();
        let mut best: Option<MemoryArea> = None;
        let mut j: usize = 0;
        let n = self.areas.len();
        while j < n
            invariant
                n == self.areas.len(),
                j <= n,
                spec_areas_wf(self.areas@),
                c0 == self.cursor(),
                match best {
                    Some(b) => {
                        &&& exists|i: int| 0 <= i < j && self.areas@[i] == b
                        &&& spec_area_last(b) >= c0
                        &&& forall|i: int|
                            0 <= i < j && spec_area_last(#[trigger] self.areas@[i]) >= c0
                                ==> b.base <= self.areas@[i].base
                    },
                    None => forall|i: int|
                        0 <= i < j ==> spec_area_last(#[trigger] self.areas@[i]) < c0,
                },
            decreases n - j,
        {
            let area = self.areas[j];
            proof {
                assert(spec_areas_wf(self.areas@));
                assert(self.areas@[j as int].length >= 1 && self.areas@[j as int].base
                    + self.areas@[j as int].length <= 0x10_0000_0000_0000);
            }
            let area_last = (area.base + area.length - 1) / 4096;
            let cursor = self.next_free_frame.index();
            if area_last >= cursor {
                match best {
                    Some(b) => {
                        if area.base < b.base {
                            best = Some(area);
                        }
                    },
                    None => {
                        best = Some(area);
                    },
                }
            }
            j = j + 1;
        }
        self.current_area = best;
        match best {
            Some(area) => {
                let start_frame = Frame::containing_address(area.base);
                if self.next_free_frame.index() < start_frame.index() {
                    self.next_free_frame = start_frame;
                }
                proof {
                    let a = best.unwrap();
                    let c1 = self.cursor();
                    assert(spec_area_first(a) <= c1);
                    assert(spec_area_last(a) >= spec_area_first(a)) by {
                        lemma_area_first_le_last(a);
                    }
                    assert(c1 <= spec_area_last(a));
                    // Any pending frame sits in an area reaching past the
                    // old cursor, whose base is at least the chosen one's:
                    // the cursor jump skips no pending frame.
                    assert forall|m: nat|
                        c0 <= m && spec_in_areas(self.areas@, m) && !self.reserved(m) implies c1
                        <= m by {
                        let i = choose|i: int|
                            0 <= i < self.areas@.len() && spec_area_first(
                                #[trigger] self.areas@[i],
                            ) <= m <= spec_area_last(self.areas@[i]);
                        assert(spec_area_last(self.areas@[i]) >= c0);
                        assert(a.base <= self.areas@[i].base);
                        assert(spec_area_first(a) <= spec_area_first(self.areas@[i])) by {
                            lemma_div_le(a.base as nat, self.areas@[i].base as nat);
                        }
                    }
                    assert(self.future() =~= old(self).future());
                }
            },
            None => {
                proof {
                    assert(self.future() =~= old(self).future());
                }
            },
        }
    }

    /// The area the allocator is currently drawing from.
    pub closed spec fn area(&self) -> Option<MemoryArea> {
        self.current_area
    }
}

proof fn lemma_div_le(a: nat, b: nat)
    requires
        a <= b,
    ensures
        a / 4096 <= b / 4096,
{
    assert(a / 4096 <= b / 4096) by (nonlinear_arith)
        requires a <= b;
}

proof fn lemma_area_first_le_last(a: MemoryArea)
    requires
        a.length >= 1,
        a.base + a.length <= 0x10_0000_0000_0000,
    ensures
        spec_area_first(a) <= spec_area_last(a),
        spec_area_last(a) < 0x100_0000_0000,
{
    lemma_div_le(a.base as nat, (a.base + a.length - 1) as nat);
    assert((a.base + a.length - 1) as nat / 4096 < 0x100_0000_0000) by (nonlinear_arith)
        requires ((a.base + a.length - 1) as nat) < 0x10_0000_0000_0000;
}

impl FrameAllocator for AreaFrameAllocator {
    /// Either the current area is one of the reported areas with the
    /// cursor at or past its first frame, or every area lies wholly
    /// below the cursor and the allocator is exhausted.
    open spec fn inv(&self) -> bool {
        &&& spec_areas_wf(self.memory_areas())
        &&& self.kernel_last() < 0x10_0000_0000_0000
        &&& self.multiboot_last() < 0x10_0000_0000_0000
        &&& match self.area() {
            Some(a) => self.memory_areas().contains(a) && spec_area_first(a) <= self.cursor(),
            None => forall|i: int|
                0 <= i < self.memory_areas().len() ==> spec_area_last(
                    #[trigger] self.memory_areas()[i],
                ) < self.cursor(),
        }
    }

    open spec fn avail(&self) -> nat {
        self.future().len()
    }

    /// The frames at or past the cursor that lie in a reported area and
    /// are neither kernel nor boot-information frames.
    closed spec fn future(&self) -> Set<nat> {
        Set::new(
            |n: nat| self.cursor() <= n && spec_in_areas(self.areas@, n) && !self.reserved(n),
        )
    }

    /// Returns the lowest pending frame, in ascending order across
    /// calls, hopping over the kernel image, the boot information, and
    /// exhausted areas.
    fn alloc_frame(&mut self) -> (r: Option<Frame>)
    {
        proof {
            old(self).lemma_future_finite();
        }
        let ghost c0 = self.cursor();
        loop
            invariant
                self.inv(),
                self.memory_areas() == old(self).memory_areas(),
                self.kernel_first() == old(self).kernel_first(),
                self.kernel_last() == old(self).kernel_last(),
                self.multiboot_first() == old(self).multiboot_first(),
                self.multiboot_last() == old(self).multiboot_last(),
                self.cursor() >= c0,
                c0 == old(self).cursor(),
                self.future() =~= old(self).future(),
                forall|m: nat| #[trigger] old(self).future().contains(m) ==> self.cursor() <= m,
            decreases
                    (if self.cursor() <= spec_max_last(self.memory_areas()) + 1 {
                        spec_max_last(self.memory_areas()) + 1 - self.cursor()
                    } else {
                        0
                    }),
                    (match self.area() {
                        Some(a) => if self.cursor() > spec_area_last(a) {
                            1int
                        } else {
                            0int
                        },
                        None => 0int,
                    }),
        {
            match self.current_area {
                None => {
                    proof {
                        assert forall|m: nat| old(self).future().contains(m) implies false by {
                            assert(self.future().contains(m));
                            let i = choose|i: int|
                                0 <= i < self.areas@.len() && spec_area_first(
                                    #[trigger] self.areas@[i],
                                ) <= m <= spec_area_last(self.areas@[i]);
                        }
                        assert(old(self).future() =~= Set::<nat>::empty());
                        old(self).lemma_future_finite();
                    }
                    return None;
                },
                Some(area) => {
                    proof {
                        assert(self.memory_areas().contains(area));
                        let i = choose|i: int|
                            0 <= i < self.memory_areas().len() && self.memory_areas()[i] == area;
                        assert(spec_areas_wf(self.memory_areas()));
                        assert(area.length >= 1 && area.base + area.length
                            <= 0x10_0000_0000_0000);
                        lemma_area_first_le_last(area);
                        lemma_max_last_bound(self.memory_areas(), i);
                    }
                    let cursor = self.next_free_frame.index();
                    let area_last = (area.base + area.length - 1) / 4096;
                    if cursor > area_last {
                        self.next_area();
                    } else if cursor >= self.kernel_start.index() && cursor
                        <= self.kernel_end.index() {
                        // Hop over the kernel image: those frames are
                        // reserved, so none of them is pending.
                        self.next_free_frame = self.kernel_end.next_frame();
                    } else if cursor >= self.multiboot_start.index() && cursor
                        <= self.multiboot_end.index() {
                        // Hop over the boot-information structure.
                        self.next_free_frame = self.multiboot_end.next_frame();
                    } else {
                        self.next_free_frame = Frame::new(cursor + 1);
                        proof {
                            let me = cursor as nat;
                            assert(spec_in_areas(self.memory_areas(), me)) by {
                                let i = choose|i: int|
                                    0 <= i < self.memory_areas().len() && self.memory_areas()[i]
                                        == area;
                                assert(spec_area_first(self.memory_areas()[i]) <= me
                                    <= spec_area_last(self.memory_areas()[i]));
                            }
                            assert(old(self).future().contains(me));
                            assert(self.future() =~= old(self).future().remove(me));
                            old(self).lemma_future_finite();
                            assert(old(self).future().len() == self.future().len() + 1);
                        }
                        return Some(Frame::new(cursor));
                    }
                },
            }
        }
    }

    /// Frame reclamation was never implemented for this allocator: the
    /// frame is abandoned.
    fn dealloc_frame(&mut self, frame: Frame) {
    }
}

} // verus!
