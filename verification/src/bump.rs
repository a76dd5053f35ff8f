//! A naive bump allocator for early kernel-heap testing.
//!
//! It hands out addresses from a fixed range and never reclaims them.

use vstd::prelude::*;
use vstd::arithmetic::power2::pow2;
use vstd::bits::low_bits_mask;
use vstd::bits::lemma_usize_low_bits_mask_is_mod;

verus! {

/// The largest multiple of `align` that is at most `addr`
/// (for a power-of-two `align`; an `align` of zero leaves `addr` as is).
pub open spec fn spec_align_down(addr: nat, align: nat) -> nat {
    if align == 0 {
        addr
    } else {
        (addr - addr % align) as nat
    }
}

/// The smallest multiple of a power-of-two `align` that is at least `addr`.
pub open spec fn spec_align_up(addr: nat, align: nat) -> nat {
    spec_align_down((addr + align - 1) as nat, align)
}

/// `n` is a power of two that fits in a `usize`.
pub open spec fn spec_is_power_of_two(n: nat) -> bool {
    exists|k: nat| k < usize::BITS && n == pow2(k)
}

/// A bump allocator over the byte range
/// `[heap_start, heap_start + heap_size)`.
#[derive(Debug)]
pub struct Heap {
    /// Start of the heap being allocated into.
    heap_start: usize,
    /// End of the heap being allocated into.
    heap_end: usize,
    /// The next free address in the heap; absolute, not relative
    /// to `heap_start`.
    next_addr: usize,
}

impl Heap {
    pub closed spec fn start(&self) -> nat {
        self.heap_start as nat
    }

    pub closed spec fn end(&self) -> nat {
        self.heap_end as nat
    }

    pub closed spec fn next(&self) -> nat {
        self.next_addr as nat
    }

    /// A new allocator over `[heap_start, heap_start + heap_size)`.
    pub fn new(heap_start: usize, heap_size: usize) -> (r: Heap)
        requires
            heap_start + heap_size <= usize::MAX,
        ensures
            r.start() == heap_start,
            r.end() == heap_start + heap_size,
            r.next() == heap_start,
    {
        Heap { heap_start, heap_end: heap_start + heap_size, next_addr: heap_start }
    }

    /// Allocates a chunk of `size` bytes aligned to `align`, bumping the
    /// cursor; `None` once the remaining space cannot hold the request.
    pub fn allocate(&mut self, size: usize, align: usize) -> (r: Option<usize>)
        requires
            spec_is_power_of_two(align as nat),
            old(self).next() + align <= usize::MAX,
        ensures
            final(self).start() == old(self).start(),
            final(self).end() == old(self).end(),
            ({
                let alloc_start = spec_align_up(old(self).next(), align as nat);
                if alloc_start + size <= old(self).end() && old(self).end() <= usize::MAX {
                    &&& r == Some(alloc_start as usize)
                    &&& final(self).next() == alloc_start + size
                    &&& alloc_start % align as nat == 0
                    &&& alloc_start >= old(self).next()
                } else {
                    &&& r is None
                    &&& final(self).next() == old(self).next()
                }
            }),
    {
        let alloc_start = align_up(self.next_addr, align);
        if alloc_start <= usize::MAX - size && alloc_start + size <= self.heap_end {
            self.next_addr = alloc_start + size;
            Some(alloc_start)
        } else {
            None
        }
    }

    /// Deallocation is deliberately absent from this allocator: the
    /// chunk is leaked.
    pub fn deallocate(&mut self, _ptr: usize, _size: usize, _align: usize)
        ensures
            *final(self) == *old(self),
    {
    }
}

/// Rounds `addr` down to the previous multiple of `align`
/// (a power of two; zero is accepted and leaves `addr` unchanged).
pub fn align_down(addr: usize, align: usize) -> (r: usize)
    requires
        align == 0 || spec_is_power_of_two(align as nat),
    ensures
        r == spec_align_down(addr as nat, align as nat),
{
    if align == 0 {
        addr
    } else {
        proof {
            let k = choose|k: nat| k < usize::BITS && align as nat == pow2(k);
            lemma_usize_low_bits_mask_is_mod(addr, k);
            assert(align - 1 == low_bits_mask(k));
            let m = (align - 1) as usize;
            assert(addr == (addr & m) + (addr & !m)) by (bit_vector);
        }
        // unset the bits below the alignment bit
        addr & !(align - 1)
    }
}

/// Rounds `addr` up to the next multiple of a power-of-two `align`.
pub fn align_up(addr: usize, align: usize) -> (r: usize)
    requires
        spec_is_power_of_two(align as nat),
        addr + align <= usize::MAX,
    ensures
        r == spec_align_up(addr as nat, align as nat),
        (r as nat) % (align as nat) == 0,
        addr <= r < addr + align,
{
    proof {
        let k = choose|k: nat| k < usize::BITS && align as nat == pow2(k);
        vstd::arithmetic::power2::lemma_pow2_pos(k);
        lemma_align_up_in_range(addr as nat, align as nat);
    }
    align_down(addr + align - 1, align)
}

/// Where `spec_align_up` lands: on a multiple of `align`, within less
/// than one `align` above `addr`.
pub proof fn lemma_align_up_in_range(addr: nat, align: nat)
    requires
        align > 0,
    ensures
        spec_align_up(addr, align) % align == 0,
        addr <= spec_align_up(addr, align) < addr + align,
{
    let s = (addr + align - 1) as nat;
    assert(s % align < align) by (nonlinear_arith)
        requires align > 0;
    assert(((s - s % align) as int) % (align as int) == 0) by (nonlinear_arith)
        requires align > 0;
    assert(s - s % align >= addr) by (nonlinear_arith)
        requires
            align > 0,
            s == addr + align - 1,
            s % align < align,
    ;
}

} // verus!
