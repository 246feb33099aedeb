# elpytios

The boot loader and kernel logic of a small x86-64 operating system, verified with Verus.

`src/` is the library. Every function in it carries a contract that Verus proves, except five
small wrappers around `arrayvec` calls in `kernel/allocator/phys.rs`, whose contracts are trusted.
Its modules:

- `bootinfo`: the hand-off between boot loader and kernel (memory regions, identity maps,
  physical and virtual addresses, page-table entry formats), and the page tables as a map
  from each entry's place in the four-level tree to the entry, with the mapping of pages
  into them.
- `elf`: reading 64-bit ELF images: headers, program segments, sections, relocations.
- `bootloader`: what the UEFI loader decides: the kernel's virtual range, the video mode,
  where the ACPI tables are, how the image is loaded and relocated, which memory the kernel
  gets.
- `kernel`: boot-time planning (buddy trees over memory regions, reserved pages, the kernel's
  own page tables and the frame buffer's pages), the buddy
  allocator and the physical page allocator, ACPI and MADT parsing, interrupt and segment
  descriptors, model-specific registers, the interval timer, serial output, spin locks.
- `heap`: the size-class heap over a page allocator, with segments of equal slots.
- `abi`: system call numbers and arguments.

`tests/` runs the library on concrete values. `app/` is the glue that cannot be verified:
the firmware calls of the loader, port I/O, the instructions that load descriptor tables,
and global state.
