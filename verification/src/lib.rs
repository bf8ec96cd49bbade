//! Verified memory-management core of a small hypervisor kernel.
pub mod addr;
pub mod buddy;
pub mod buddy_init;
pub mod buddy_laws;
pub mod bump;
pub mod cmos;
pub mod framebuffer;
pub mod heap;
pub mod hpet;
pub mod ioapic;
pub mod kernel_heap;
pub mod lapic;
pub mod levels;
pub mod memmap;
pub mod mmio;
pub mod msr;
pub mod paging;
pub mod pit;
pub mod pmm;
pub mod scheduler;
pub mod serial;
pub mod slab;
pub mod slab_laws;
pub mod slab_lists;
pub mod slab_lists_laws;
pub mod timer;
pub mod vmm;
