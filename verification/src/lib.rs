//! A verified model of the virtual-memory core of a small x86-64 kernel:
//! page-aligned address arithmetic, 64-bit page-table entries, the 4-level
//! walk and map algorithms over an explicit view of physical memory, a
//! memory-map-driven bump frame allocator, the heap-range bootstrap, and a
//! skeletal process table.
//!
//! Hardware access (the CR3 register, the live page-table frames, the boot
//! handshake) cannot be verified and stays outside this crate; the library
//! works on an owned model of the page-table hierarchy instead, as the data
//! it manipulates is plain 64-bit words either way.

pub mod addr;
pub mod allocator;
pub mod memory;
pub mod pagetable;
pub mod paging;
pub mod process;
