//! Verified core of a small RISC-V kernel: physical page pool, Sv39 page
//! tables, kernel allocators, ELF and ext2 parsing, and the scheduling and
//! device bookkeeping that surrounds them.
pub mod param;
pub mod vm;
pub mod file;
pub mod id;
pub mod process;
pub mod heap;
pub mod fs;
pub mod device;
pub mod trap;
pub mod lock;
pub mod mem;
pub mod hw;
