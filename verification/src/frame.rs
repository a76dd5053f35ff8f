//! Physical page frames.
//!
//! Addresses in this subsystem are 64-bit values: the code runs on
//! x86_64, where physical addresses reach 52 bits.

use vstd::prelude::*;

verus! {

/// The physical size of each frame and virtual size of each page, in bytes.
pub const PAGE_SIZE: u64 = 4096;

/// A page frame in physical memory.
///
/// Frames are all the same size (4 KiB) and represented internally with an
/// index, starting with frame 0 at physical address `0x0`. A `Frame` handle
/// stands for the right to use that physical page, so cloning is not
/// exposed publicly; only allocator and mapper internals may duplicate one.
#[derive(PartialEq, Eq, PartialOrd, Ord, Debug, Structural)]
pub struct Frame {
    index: u64,
}

impl View for Frame {
    type V = nat;

    closed spec fn view(&self) -> nat {
        self.index as nat
    }
}

/// The frame that covers a given physical address.
pub open spec fn spec_frame_containing(address: nat) -> nat {
    address / 4096
}

/// The first physical address inside a frame.
pub open spec fn spec_frame_start(index: nat) -> nat {
    index * 4096
}

impl Frame {
    pub fn new(index: u64) -> (r: Frame)
        ensures
            r@ == index,
    {
        Frame { index }
    }

    pub fn index(&self) -> (r: u64)
        ensures
            r == self@,
    {
        self.index
    }

    /// The frame containing a particular physical address.
    pub fn containing_address(address: u64) -> (r: Frame)
        ensures
            r@ == spec_frame_containing(address as nat),
    {
        Frame { index: address / PAGE_SIZE }
    }

    /// The frame after this one.
    pub fn next_frame(&self) -> (r: Frame)
        requires
            self@ + 1 <= u64::MAX,
        ensures
            r@ == self@ + 1,
    {
        Frame { index: self.index + 1 }
    }

    /// The starting physical address of the frame.
    pub fn start_address(&self) -> (r: u64)
        requires
            self@ * 4096 <= u64::MAX,
        ensures
            r == spec_frame_start(self@),
    {
        self.index * PAGE_SIZE
    }

    /// All frames between `start` and `end`, inclusive.
    pub fn range_inclusive(start: Frame, end: Frame) -> (r: FrameIter)
        ensures
            r.cursor() == start@,
            r.last() == end@,
    {
        FrameIter { start, end }
    }

    /// Duplicating a frame handle is reserved to the memory subsystem
    /// itself: handing copies out would invite double mapping.
    pub(crate) fn duplicate(&self) -> (r: Frame)
        ensures
            r@ == self@,
    {
        Frame { index: self.index }
    }
}

/// A frame handle round-trips through its starting address: the frame
/// containing `f.start_address()` is `f` itself.
pub proof fn lemma_frame_containing_start_address(f: Frame)
    ensures
        spec_frame_containing(spec_frame_start(f@)) == f@,
{
    assert(f@ * 4096 / 4096 == f@) by (nonlinear_arith);
}

/// An iterator over an inclusive range of page frames.
pub struct FrameIter {
    start: Frame,
    end: Frame,
}

impl FrameIter {
    /// The next frame the iterator would yield.
    pub closed spec fn cursor(&self) -> nat {
        self.start@
    }

    /// The last frame of the range.
    pub closed spec fn last(&self) -> nat {
        self.end@
    }

    /// Yields the next frame of the range, low to high.
    pub fn next(&mut self) -> (r: Option<Frame>)
        requires
            old(self).cursor() + 1 <= u64::MAX,
        ensures
            final(self).last() == old(self).last(),
            old(self).cursor() <= old(self).last() ==> {
                &&& r matches Some(f) && f@ == old(self).cursor()
                &&& final(self).cursor() == old(self).cursor() + 1
            },
            old(self).cursor() > old(self).last() ==> {
                &&& r is None
                &&& final(self).cursor() == old(self).cursor()
            },
    {
        if self.start.index <= self.end.index {
            let frame = self.start.duplicate();
            self.start = self.start.next_frame();
            Some(frame)
        } else {
            None
        }
    }
}

} // verus!
