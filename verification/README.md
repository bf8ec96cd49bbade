# funderberker

The memory-management and device-driver core of a small x86_64 hypervisor
kernel, written in Verus: every function in `src/` carries a contract that
Verus proves.

- `src/` is the verified library:
  - physical memory: the buddy allocator (`buddy`, `buddy_init`, `levels`,
    with its laws in `buddy_laws`), the bitmap bump allocator (`bump`) and the
    bootloader's memory map (`memmap`);
  - slab allocation: the slab crate's cache and heap (`slab`, `heap`, laws in
    `slab_laws`), the kernel's three-list cache, its typed allocator and its
    power-of-two heap (`slab_lists`, `kernel_heap`, laws in
    `slab_lists_laws`);
  - paging vocabulary and addresses (`paging`, `pmm`, `addr`, `mmio`), the
    virtual memory manager's page allocation over the buddy allocator and the
    direct map (`vmm`), and model-specific register values (`msr`);
  - drivers' decisions: I/O APIC and local APIC registers, the APIC timer,
    the HPET and its timer table, the PIT, the CMOS, the serial ports and the
    framebuffer console (`ioapic`, `lapic`, `timer`, `hpet`, `pit`, `cmos`,
    `serial`, `framebuffer`), and the constant scheduler (`scheduler`).
- `app/` is the ordinary Rust around it: reading the bootloader's structures,
  volatile register and port accesses, the global allocators, and locks.
- `tests/` runs the library on concrete values.

Hardware state enters the library as plain values: a caller reads a
register, hands the value in, and performs the writes the library returns.
Where an allocator needs fresh pages, it says so, and the caller hands the
pages in.
