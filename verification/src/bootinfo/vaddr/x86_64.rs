//! x86_64 page tables: the entry formats, read through physical addresses, and the
//! recursive virtual addresses through which the live tables are reached.
pub mod map;
pub mod phys;
pub mod virt;
