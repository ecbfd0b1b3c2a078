//! Memory-management core of a small x86-64 kernel.
//!
//! The crate turns a firmware-supplied physical memory map into safely
//! addressable virtual memory and provides dynamic heap allocation:
//!
//! * [`memory`] — the physical-frame allocator, fed by the firmware's
//!   memory-region list;
//! * [`paging`] — the address translator: it installs and removes
//!   virtual-to-physical translations in a model of the four-level
//!   page-table hierarchy, drawing frames for missing intermediate
//!   tables from the frame allocator;
//! * [`linked_list`] — a first-fit allocator over one virtual region,
//!   with address-ordered free blocks and coalescing on free;
//! * [`fixed_size_block`] — the process-wide heap allocator: power-of-two
//!   size classes backed by the first-fit allocator;
//! * [`allocator`] — the heap region constants and the boot-time routine
//!   that maps the heap pages and hands them to the heap allocator;
//! * [`acpi`] — the mapping handler used while reading firmware tables;
//! * [`gdt`], [`interrupts`] — the interrupt-stack and interrupt-vector
//!   index tables consumed by the (unverified) trap setup.
//!
//! All state lives in explicitly constructed manager values threaded by
//! reference; the privileged hardware side (page-table writes, TLB
//! flushes, port accesses) stays outside this crate and mirrors every
//! decision taken here.

pub mod acpi;
pub mod allocator;
pub mod fixed_size_block;
pub mod gdt;
pub mod interrupts;
pub mod linked_list;
pub mod memory;
pub mod paging;
