//! Plain-value form of what the bootloader reports.
//!
//! The boot collaborator hands the kernel a memory map, the ELF section
//! layout of the kernel image, and the byte range of the boot-information
//! structure itself. Unverified glue converts the bootloader's own
//! structures into these values at the boundary.

use vstd::prelude::*;

verus! {

/// One usable region of physical memory: `[base, base + length)` bytes.
#[derive(Clone, Copy, PartialEq, Eq, Debug, Structural)]
pub struct MemoryArea {
    pub base: u64,
    pub length: u64,
}

impl MemoryArea {
    pub fn new(base: u64, length: u64) -> (r: MemoryArea)
        ensures
            r == (MemoryArea { base, length }),
    {
        MemoryArea { base, length }
    }
}

/// One ELF section of the loaded kernel image.
#[derive(Clone, Copy, PartialEq, Eq, Debug, Structural)]
pub struct ElfSection {
    /// First byte of the section in (identity-mapped) memory.
    pub start: u64,
    /// Size of the section in bytes.
    pub size: u64,
    /// Whether the section occupies memory at run time.
    pub allocated: bool,
    /// Whether the section is written to at run time.
    pub writable: bool,
    /// Whether the section holds code.
    pub executable: bool,
}

impl ElfSection {
    /// One byte past the end of the section.
    pub open spec fn spec_end(&self) -> nat {
        (self.start + self.size) as nat
    }
}

/// Everything this subsystem consumes from the bootloader.
#[derive(Clone, Debug)]
pub struct BootInfo {
    /// The boot-reported map of usable physical memory.
    pub areas: Vec<MemoryArea>,
    /// The ELF sections of the kernel image.
    pub sections: Vec<ElfSection>,
    /// First byte of the boot-information structure.
    pub start_address: u64,
    /// One byte past the end of the boot-information structure.
    pub end_address: u64,
}

} // verus!
