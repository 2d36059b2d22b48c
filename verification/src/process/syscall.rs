//! System call routing: which calls run on the kernel stack and page table,
//! and which on the process's own.
use vstd::prelude::*;

verus! {

/// RISC-V Linux system call numbers the kernel handles.
pub const OPENAT: usize = 56;
pub const CLOSE: usize = 57;
pub const READ: usize = 63;
pub const WRITE: usize = 64;
pub const SCHED_YIELD: usize = 124;

/// Where a system call runs: 0 on the process stack and page table, any
/// other value on the kernel stack and page table (then the call has left
/// the process). Yield, open and close leave the process; read, write and
/// calls not handled stay in it.
pub fn scall_direct(a7: usize) -> (r: usize)
    ensures
        r == if a7 == SCHED_YIELD || a7 == OPENAT || a7 == CLOSE {
            1usize
        } else {
            0usize
        },
{
    match a7 {
        SCHED_YIELD => 1,
        READ => 0,
        WRITE => 0,
        OPENAT => 1,
        CLOSE => 1,
        _ => 0,
    }
}

} // verus!
