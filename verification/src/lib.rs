//! Verified core logic of the elpytios kernel and its boot chain: the physical page
//! allocators, page-table entry encodings, boot-time memory planning, and the
//! byte-level parsers for ELF images and ACPI tables.
use vstd::prelude::*;

pub mod abi;
pub mod bootinfo;
pub mod bootloader;
pub mod elf;
pub mod heap;
pub mod kernel;
pub mod num;

verus! {

/// Size in bytes of one page of physical or virtual memory.
pub const PAGE_SIZE: usize = 4096;

} // verus!
