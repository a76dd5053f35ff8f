//! Verified virtual-memory core of a small x86_64 microkernel.
//!
//! The crate models physical memory that holds page tables as a
//! frame-indexed store, and verifies the logic that the kernel runs over
//! it at boot: discovering usable physical frames, building a fresh
//! 4-level page-table hierarchy, replacing the boot mapping, and carving
//! out the kernel heap and guarded stacks.

pub mod boot;
pub mod bump;
pub mod frame;
pub mod frame_allocators;
pub mod once;
pub mod mapper;
pub mod memory;
pub mod page;
pub mod paging;
pub mod stack_allocator;
pub mod temporary_page;
pub mod table;
