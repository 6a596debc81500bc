//! Virtual-memory core of a small kernel: typed addresses, a page-table-entry
//! codec matching the Sv39 hardware format, a verified 3-level page table over
//! an explicit physical-memory model, the user/kernel copy layer, and the
//! mmap/munmap family of syscalls built on top of them.

pub mod addr;
pub mod copyio;
pub mod frame;
pub mod mem;
pub mod page_table;
pub mod pte;
pub mod syscall;
