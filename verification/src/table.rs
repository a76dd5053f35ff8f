//! Page-table entries, entry flags, and the 512-entry table itself.

use vstd::prelude::*;
use crate::boot::ElfSection;
use crate::frame::Frame;

verus! {

/// Entries per page table, at every level.
pub const ENTRY_COUNT: usize = 512;

/// The entry is mapped.
pub const PRESENT: u64 = 0x1;
/// The mapped page may be written.
pub const WRITABLE: u64 = 0x2;
/// The mapped page is reachable from ring 3.
pub const USER_ACCESSIBLE: u64 = 0x4;
/// Writes go directly to memory.
pub const WRITE_THROUGH: u64 = 0x8;
/// No cache is used for the mapped page.
pub const NO_CACHE: u64 = 0x10;
/// The CPU set this bit on access.
pub const ACCESSED: u64 = 0x20;
/// The CPU set this bit on a write.
pub const DIRTY: u64 = 0x40;
/// The entry maps a 1 GiB (P3) or 2 MiB (P2) page directly.
pub const HUGE_PAGE: u64 = 0x80;
/// The mapping survives address-space switches.
pub const GLOBAL: u64 = 0x100;
/// Code in the mapped page may not be executed.
pub const NO_EXECUTE: u64 = 0x8000_0000_0000_0000;

/// Every flag bit an entry can carry.
pub const ALL_FLAGS: u64 = 0x8000_0000_0000_01ff;

/// The bits of an entry that hold the mapped frame's physical address.
pub const ADDRESS_MASK: u64 = 0x000f_ffff_ffff_f000;

/// Whether entry value `e` has its present bit set.
pub open spec fn spec_present(e: u64) -> bool {
    e & PRESENT != 0
}

/// Whether entry value `e` maps a huge page.
pub open spec fn spec_huge(e: u64) -> bool {
    e & HUGE_PAGE != 0
}

/// The physical address stored in entry value `e`.
pub open spec fn spec_entry_addr(e: u64) -> nat {
    (e & ADDRESS_MASK) as nat
}

/// The frame index stored in entry value `e`.
pub open spec fn spec_entry_frame(e: u64) -> nat {
    spec_entry_addr(e) / 4096
}

/// The flag bits of entry value `e`.
pub open spec fn spec_entry_flags(e: u64) -> u64 {
    e & ALL_FLAGS
}

/// The entry value that maps frame `frame` with flag bits `flags`.
pub open spec fn spec_entry_value(frame: nat, flags: u64) -> u64 {
    (frame * 4096) as u64 | flags
}

/// What `Entry::set` stores decodes back into its parts: the frame, its
/// flags, presence and hugeness are all recovered from the stored word.
pub proof fn lemma_entry_value_decodes(frame: u64, flags: u64)
    requires
        frame < 0x100_0000_0000,
        flags & ADDRESS_MASK == 0,
        flags & ALL_FLAGS == flags,
    ensures
        spec_entry_frame(spec_entry_value(frame as nat, flags)) == frame,
        spec_entry_addr(spec_entry_value(frame as nat, flags)) == frame * 4096,
        spec_entry_flags(spec_entry_value(frame as nat, flags)) == flags,
        spec_present(spec_entry_value(frame as nat, flags)) == (flags & PRESENT != 0),
        spec_huge(spec_entry_value(frame as nat, flags)) == (flags & HUGE_PAGE != 0),
        spec_entry_value(frame as nat, flags) == 0 <==> frame == 0 && flags == 0,
{
    let e = spec_entry_value(frame as nat, flags);
    assert((e & 0x000f_ffff_ffff_f000 == ((frame * 4096) as u64) && ((frame * 4096) as u64) / 4096
        == frame && e & 0x8000_0000_0000_01ff == flags && e & 0x1 == (flags & 0x1) && e & 0x80 == (
    flags & 0x80) && (e == 0 <==> (frame == 0 && flags == 0)))) by (bit_vector)
        requires
            e == ((frame * 4096) as u64) | flags,
            frame < 0x100_0000_0000,
            flags & 0x000f_ffff_ffff_f000 == 0,
            flags & 0x8000_0000_0000_01ff == flags,
    ;
    assert(spec_entry_addr(e) == frame * 4096);
    assert(frame * 4096 < 0x10_0000_0000_0000) by (nonlinear_arith)
        requires frame < 0x100_0000_0000;
    assert(frame as nat * 4096 / 4096 == frame) by (nonlinear_arith);
}

/// The bit-level facts the rest of the crate needs about entry words:
/// frame indices decoded from entries fit in 40 bits, zero entries carry
/// nothing, and flag words stay inside `ALL_FLAGS` under union.
pub proof fn lemma_entry_bit_facts()
    by (bit_vector)
    ensures
        forall|e: u64| #[trigger] (e & ADDRESS_MASK) / 4096 < 0x100_0000_0000,
        forall|m: u64| #[trigger] (0u64 & m) == 0,
        forall|a: u64, b: u64|
            a & ALL_FLAGS == a && b & ALL_FLAGS == b ==> #[trigger] ((a | b) & ALL_FLAGS) == (a
                | b),
        forall|fl: u64| fl & ALL_FLAGS == fl ==> #[trigger] (fl & ADDRESS_MASK) == 0,
        forall|fl: u64| #[trigger] ((fl | PRESENT) & PRESENT) != 0,
        forall|fl: u64| #[trigger] ((fl | PRESENT) & HUGE_PAGE) == fl & HUGE_PAGE,
        forall|fl: u64| #[trigger] ((fl & ALL_FLAGS) & ALL_FLAGS) == fl & ALL_FLAGS,
        PRESENT | WRITABLE == 0x3,
        WRITABLE | PRESENT == 0x3,
        PRESENT & ALL_FLAGS == PRESENT,
        WRITABLE & ALL_FLAGS == WRITABLE,
        0x3u64 & ALL_FLAGS == 0x3,
        HUGE_PAGE & ALL_FLAGS == HUGE_PAGE,
        NO_EXECUTE & ALL_FLAGS == NO_EXECUTE,
        0u64 & ALL_FLAGS == 0,
        0x3u64 & PRESENT != 0,
        0x3u64 & HUGE_PAGE == 0,
        WRITABLE & HUGE_PAGE == 0,
        PRESENT & HUGE_PAGE == 0,
        NO_EXECUTE & HUGE_PAGE == 0,
        forall|a: u64, b: u64|
            a & HUGE_PAGE == 0 && b & HUGE_PAGE == 0 ==> #[trigger] ((a | b) & HUGE_PAGE) == 0,
{
}

/// A flag set out of the bits above.
#[derive(Clone, Copy, PartialEq, Eq, Debug, Structural)]
pub struct EntryFlags {
    bits: u64,
}

impl EntryFlags {
    /// Flag words only ever carry known flag bits.
    #[verifier::type_invariant]
    pub closed spec fn flags_wf(self) -> bool {
        self.bits & ALL_FLAGS == self.bits
    }
}

/// What the flag-word invariant means for the view: the word is masked
/// to the known flag bits.
pub proof fn lemma_flags_wf_masked(f: EntryFlags)
    requires
        f.flags_wf(),
    ensures
        f@ & ALL_FLAGS == f@,
{
}

impl View for EntryFlags {
    type V = u64;

    closed spec fn view(&self) -> u64 {
        self.bits
    }
}

impl EntryFlags {
    /// No flags at all.
    pub fn empty() -> (r: EntryFlags)
        ensures
            r@ == 0,
    {
        proof {
            lemma_entry_bit_facts();
        }
        EntryFlags { bits: 0 }
    }

    /// The flag set with exactly the known flag bits of `bits`.
    pub fn from_bits_truncate(bits: u64) -> (r: EntryFlags)
        ensures
            r@ == bits & ALL_FLAGS,
    {
        proof {
            lemma_entry_bit_facts();
        }
        EntryFlags { bits: bits & ALL_FLAGS }
    }

    pub fn bits(&self) -> (r: u64)
        ensures
            r == self@,
    {
        self.bits
    }

    /// Whether every flag of `other` is also set in `self`.
    pub fn contains(&self, other: EntryFlags) -> (r: bool)
        ensures
            r == (self@ & other@ == other@),
    {
        self.bits & other.bits == other.bits
    }

    /// The flags set in either operand.
    pub fn union(self, other: EntryFlags) -> (r: EntryFlags)
        ensures
            r@ == self@ | other@,
    {
        proof {
            use_type_invariant(self);
            use_type_invariant(other);
            lemma_entry_bit_facts();
        }
        EntryFlags { bits: self.bits | other.bits }
    }

    /// The page-table flags a kernel ELF section is mapped with:
    /// present when it occupies memory, writable when it is written,
    /// and no-execute unless it holds code.
    pub fn from_elf_section_flags(section: &ElfSection) -> (r: EntryFlags)
        ensures
            r@ == spec_section_flags(*section),
    {
        let p: u64 = if section.allocated {
            PRESENT
        } else {
            0
        };
        let w: u64 = if section.writable {
            WRITABLE
        } else {
            0
        };
        let nx: u64 = if section.executable {
            0
        } else {
            NO_EXECUTE
        };
        proof {
            lemma_entry_bit_facts();
        }
        EntryFlags { bits: p | w | nx }
    }
}

/// The flag word `from_elf_section_flags` produces.
pub open spec fn spec_section_flags(section: ElfSection) -> u64 {
    (if section.allocated {
        PRESENT
    } else {
        0
    }) | (if section.writable {
        WRITABLE
    } else {
        0
    }) | (if section.executable {
        0
    } else {
        NO_EXECUTE
    })
}

/// One 64-bit page-table entry: flag bits plus a frame address.
#[derive(Clone, Copy, Debug)]
pub struct Entry {
    value: u64,
}

impl View for Entry {
    type V = u64;

    closed spec fn view(&self) -> u64 {
        self.value
    }
}

impl Entry {
    /// An entry that maps nothing.
    pub fn unused() -> (r: Entry)
        ensures
            r@ == 0,
    {
        Entry { value: 0 }
    }

    /// Whether the entry maps nothing at all.
    pub fn is_unused(&self) -> (r: bool)
        ensures
            r == (self@ == 0),
    {
        self.value == 0
    }

    /// Clears the entry.
    pub fn set_unused(&mut self)
        ensures
            final(self)@ == 0,
    {
        self.value = 0;
    }

    /// The flags the entry carries.
    pub fn flags(&self) -> (r: EntryFlags)
        ensures
            r@ == spec_entry_flags(self@),
    {
        EntryFlags::from_bits_truncate(self.value)
    }

    /// The frame the entry points at, if it is present.
    pub fn pointed_frame(&self) -> (r: Option<Frame>)
        ensures
            match r {
                Some(f) => spec_present(self@) && f@ == spec_entry_frame(self@),
                None => !spec_present(self@),
            },
    {
        if self.value & PRESENT != 0 {
            Some(Frame::containing_address(self.value & ADDRESS_MASK))
        } else {
            None
        }
    }

    /// Points the entry at `frame` with flags `flags` (the present bit is
    /// not implied). The frame address must fit the entry's address bits:
    /// below 2^52 and, being a frame address, page-aligned.
    pub fn set(&mut self, frame: Frame, flags: EntryFlags)
        requires
            frame@ < 0x100_0000_0000,
        ensures
            final(self)@ == spec_entry_value(frame@, flags@),
    {
        proof {
            assert(frame@ * 4096 < 0x10_0000_0000_0000) by (nonlinear_arith)
                requires frame@ < 0x100_0000_0000;
        }
        let addr = frame.start_address();
        self.value = (addr as u64) | flags.bits();
    }
}

/// A page table: 512 entries at any of the four levels.
///
/// The level a table serves at is tracked by its owner (the mapper),
/// which never asks a leaf table for children.
#[derive(Clone, Debug)]
pub struct Table {
    entries: Vec<Entry>,
}

impl View for Table {
    type V = Seq<u64>;

    closed spec fn view(&self) -> Seq<u64> {
        Seq::new(self.entries@.len(), |i: int| self.entries@[i]@)
    }
}

/// The contents of a freshly zeroed table.
pub open spec fn spec_zero_table() -> Seq<u64> {
    Seq::new(512, |i: int| 0u64)
}

impl Table {
    /// A table with every entry unused.
    pub fn new() -> (r: Table)
        ensures
            r@ =~= spec_zero_table(),
    {
        let mut entries: Vec<Entry> = Vec::new();
        let mut i: usize = 0;
        while i < 512
            invariant
                i <= 512,
                entries@.len() == i,
                forall|j: int| 0 <= j < i ==> entries@[j]@ == 0,
            decreases 512 - i,
        {
            entries.push(Entry::unused());
            i = i + 1;
        }
        Table { entries }
    }

    /// Clears every entry.
    pub fn zero(&mut self)
        ensures
            final(self)@ =~= spec_zero_table(),
    {
        self.entries = Vec::new();
        let mut i: usize = 0;
        while i < 512
            invariant
                i <= 512,
                self.entries@.len() == i,
                forall|j: int| 0 <= j < i ==> self.entries@[j]@ == 0,
            decreases 512 - i,
        {
            self.entries.push(Entry::unused());
            i = i + 1;
        }
    }

    /// The entry at `index`.
    pub fn entry(&self, index: u64) -> (r: Entry)
        requires
            index < 512,
            index < self@.len(),
        ensures
            r@ == self@[index as int],
    {
        self.entries[index as usize]
    }

    /// Replaces the entry at `index`.
    pub fn set_entry(&mut self, index: u64, e: Entry)
        requires
            index < 512,
            index < old(self)@.len(),
        ensures
            final(self)@ =~= old(self)@.update(index as int, e@),
    {
        self.entries[index as usize] = e;
    }
}

} // verus!
