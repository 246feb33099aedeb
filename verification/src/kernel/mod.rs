//! The kernel proper.
pub mod acpi;
pub mod allocator;
pub mod arch;
pub mod boot;
pub mod boot_map;
pub mod ghost_pages;
pub mod interrupt;
pub mod serial;
pub mod spin_sync;
