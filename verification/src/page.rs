//! Virtual pages.

use vstd::prelude::*;

verus! {

/// A representation of a virtual page, identified by index
/// (`virtual address / 4096`).
#[derive(Clone, Copy, PartialEq, Eq, PartialOrd, Ord, Debug, Structural)]
pub struct Page {
    index: u64,
}

impl View for Page {
    type V = nat;

    closed spec fn view(&self) -> nat {
        self.index as nat
    }
}

/// A virtual address is canonical when it lies outside the architectural
/// hole `[0x0000_8000_0000_0000, 0xffff_8000_0000_0000)`.
pub open spec fn spec_canonical_address(address: nat) -> bool {
    address < 0x0000_8000_0000_0000 || address >= 0xffff_8000_0000_0000
}

/// The page indices that canonical 64-bit virtual addresses fall into:
/// below the hole, or in the sign-extended upper half.
pub open spec fn spec_canonical_page(index: nat) -> bool {
    index < 0x8_0000_0000 || (0xf_fff8_0000_0000 <= index < 0x10_0000_0000_0000)
}

/// Index of the page-table slot a page uses at each level of the
/// 4-level hierarchy: 9 bits of the page index per level.
pub open spec fn spec_p4_index(index: nat) -> nat {
    (index / 0x800_0000) % 512
}

pub open spec fn spec_p3_index(index: nat) -> nat {
    (index / 0x4_0000) % 512
}

pub open spec fn spec_p2_index(index: nat) -> nat {
    (index / 512) % 512
}

pub open spec fn spec_p1_index(index: nat) -> nat {
    index % 512
}

impl Page {
    /// The page containing a given virtual address. Addresses inside the
    /// non-canonical hole come only from corrupted state, so they are
    /// excluded rather than handled.
    pub fn containing_address(address: u64) -> (r: Page)
        requires
            spec_canonical_address(address as nat),
        ensures
            r@ == address as nat / 4096,
            spec_canonical_page(r@),
    {
        proof {
            if address >= 0xffff_8000_0000_0000 {
                assert((address as nat) / 4096 >= 0xf_fff8_0000_0000) by (nonlinear_arith)
                    requires (address as nat) >= 0xffff_8000_0000_0000;
                assert((address as nat) / 4096 < 0x10_0000_0000_0000) by (nonlinear_arith)
                    requires (address as nat) <= 0xffff_ffff_ffff_ffff;
            } else {
                assert((address as nat) / 4096 < 0x8_0000_0000) by (nonlinear_arith)
                    requires (address as nat) < 0x0000_8000_0000_0000;
            }
        }
        Page { index: address / crate::frame::PAGE_SIZE }
    }

    /// A page from a raw index, unvalidated; indices are checked where
    /// they are used to install or remove mappings.
    pub fn new(index: u64) -> (r: Page)
        ensures
            r@ == index,
    {
        Page { index }
    }

    pub fn index(&self) -> (r: u64)
        ensures
            r == self@,
    {
        self.index
    }

    /// The first virtual address inside the page.
    pub fn start_address(&self) -> (r: u64)
        requires
            self@ * 4096 <= u64::MAX,
        ensures
            r == self@ * 4096,
    {
        self.index * crate::frame::PAGE_SIZE
    }

    /// All pages between `start` and `end`, inclusive.
    pub fn range_inclusive(start: Page, end: Page) -> (r: PageIter)
        ensures
            r.cursor() == start@,
            r.last() == end@,
    {
        PageIter { start, end }
    }

    /// The page `rhs` pages above this one.
    pub fn add(self, rhs: u64) -> (r: Page)
        requires
            self@ + rhs <= u64::MAX,
        ensures
            r@ == self@ + rhs,
    {
        Page { index: self.index + rhs }
    }

    pub fn p4_index(&self) -> (r: u64)
        ensures
            r == spec_p4_index(self@),
            r < 512,
    {
        proof {
            let x = self.index;
            assert((x >> 27) & 0o777 == (x / 0x800_0000) % 512 && (x >> 27) & 0o777 < 512)
                by (bit_vector);
        }
        (self.index >> 27) & 0o777
    }

    pub fn p3_index(&self) -> (r: u64)
        ensures
            r == spec_p3_index(self@),
            r < 512,
    {
        proof {
            let x = self.index;
            assert((x >> 18) & 0o777 == (x / 0x4_0000) % 512 && (x >> 18) & 0o777 < 512)
                by (bit_vector);
        }
        (self.index >> 18) & 0o777
    }

    pub fn p2_index(&self) -> (r: u64)
        ensures
            r == spec_p2_index(self@),
            r < 512,
    {
        proof {
            let x = self.index;
            assert((x >> 9) & 0o777 == (x / 512) % 512 && (x >> 9) & 0o777 < 512) by (bit_vector);
        }
        (self.index >> 9) & 0o777
    }

    pub fn p1_index(&self) -> (r: u64)
        ensures
            r == spec_p1_index(self@),
            r < 512,
    {
        proof {
            let x = self.index;
            assert(x & 0o777 == x % 512 && x & 0o777 < 512) by (bit_vector);
        }
        self.index & 0o777
    }
}

/// Two canonical pages that use the same slot at every level of the
/// hierarchy are the same page: the four 9-bit slot indices fix the low
/// 36 bits of the page index, and canonicality forces the rest.
pub proof fn lemma_canonical_page_injective(a: nat, b: nat)
    requires
        spec_canonical_page(a),
        spec_canonical_page(b),
        spec_p4_index(a) == spec_p4_index(b),
        spec_p3_index(a) == spec_p3_index(b),
        spec_p2_index(a) == spec_p2_index(b),
        spec_p1_index(a) == spec_p1_index(b),
    ensures
        a == b,
{
    lemma_low_bits_from_indices(a);
    lemma_low_bits_from_indices(b);
    assert(a % 0x10_0000_0000 == b % 0x10_0000_0000);
    if a < 0x8_0000_0000 && b < 0x8_0000_0000 {
        assert(a % 0x10_0000_0000 == a) by (nonlinear_arith)
            requires a < 0x8_0000_0000;
        assert(b % 0x10_0000_0000 == b) by (nonlinear_arith)
            requires b < 0x8_0000_0000;
    } else if a >= 0xf_fff8_0000_0000 && b >= 0xf_fff8_0000_0000 {
        lemma_high_half_determined(a);
        lemma_high_half_determined(b);
    } else {
        // One index is in the low half and the other in the upper half:
        // their bit 35 (the top bit of the p4 slot) differs.
        assert(false) by {
            if a < 0x8_0000_0000 {
                lemma_bit35_low(a);
                lemma_bit35_high(b);
            } else {
                lemma_bit35_high(a);
                lemma_bit35_low(b);
            }
        };
    }
}

proof fn lemma_low_bits_from_indices(a: nat)
    requires
        a < 0x10_0000_0000_0000,
    ensures
        a % 0x10_0000_0000 == spec_p1_index(a) + 512 * spec_p2_index(a) + 0x4_0000 * spec_p3_index(
            a,
        ) + 0x800_0000 * spec_p4_index(a),
{
    let x = a as u64;
    assert(x % 0x10_0000_0000 == x % 512 + 512 * ((x / 512) % 512) + 0x4_0000 * ((x / 0x4_0000)
        % 512) + 0x800_0000 * ((x / 0x800_0000) % 512)) by (bit_vector);
}

proof fn lemma_high_half_determined(a: nat)
    requires
        0xf_fff8_0000_0000 <= a < 0x10_0000_0000_0000,
    ensures
        a == 0xf_fff0_0000_0000 + a % 0x10_0000_0000,
{
    assert(a / 0x10_0000_0000 == 0xffff) by (nonlinear_arith)
        requires 0xf_fff8_0000_0000 <= a < 0x10_0000_0000_0000;
    assert(a == 0x10_0000_0000 * (a / 0x10_0000_0000) + a % 0x10_0000_0000) by (nonlinear_arith);
}

/// Pages of the identity-mapped low half of the address space never use
/// the recursive slot: their root-level index stays below 256.
pub proof fn lemma_bit35_low(a: nat)
    requires
        a < 0x8_0000_0000,
    ensures
        spec_p4_index(a) < 256,
{
    assert(a / 0x800_0000 < 256) by (nonlinear_arith)
        requires a < 0x8_0000_0000;
    assert((a / 0x800_0000) % 512 == a / 0x800_0000) by (nonlinear_arith)
        requires a / 0x800_0000 < 256;
}

proof fn lemma_bit35_high(a: nat)
    requires
        0xf_fff8_0000_0000 <= a < 0x10_0000_0000_0000,
    ensures
        spec_p4_index(a) >= 256,
{
    let x = a as u64;
    assert((x / 0x800_0000) % 512 >= 256) by (bit_vector)
        requires 0xf_fff8_0000_0000 <= x < 0x10_0000_0000_0000;
}

/// An iterator over an inclusive range of virtual pages.
#[derive(Clone)]
pub struct PageIter {
    start: Page,
    end: Page,
}

impl PageIter {
    /// The next page the iterator would yield.
    pub closed spec fn cursor(&self) -> nat {
        self.start@
    }

    /// The last page of the range.
    pub closed spec fn last(&self) -> nat {
        self.end@
    }

    /// A second iterator over the same remaining range; lets a caller
    /// try to consume pages and only commit on success.
    pub fn duplicate(&self) -> (r: PageIter)
        ensures
            r.cursor() == self.cursor(),
            r.last() == self.last(),
    {
        PageIter { start: self.start, end: self.end }
    }

    /// Yields the next page of the range, low to high.
    pub fn next(&mut self) -> (r: Option<Page>)
        requires
            old(self).cursor() + 1 <= u64::MAX,
        ensures
            final(self).last() == old(self).last(),
            old(self).cursor() <= old(self).last() ==> {
                &&& r matches Some(p) && p@ == old(self).cursor()
                &&& final(self).cursor() == old(self).cursor() + 1
            },
            old(self).cursor() > old(self).last() ==> {
                &&& r is None
                &&& final(self).cursor() == old(self).cursor()
            },
    {
        if self.start.index <= self.end.index {
            let page = self.start;
            self.start = Page { index: self.start.index + 1 };
            Some(page)
        } else {
            None
        }
    }
}

} // verus!
