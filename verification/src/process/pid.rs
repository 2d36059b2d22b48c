//! Process ids from a counter that only moves down when the id released is
//! the last one handed out; ids 0 and 1 are reserved.
use vstd::prelude::*;

verus! {

/// The first id handed out.
pub const FIRST_PID: usize = 2;

/// The next id to hand out.
pub struct PidCounter {
    next: usize,
}

impl PidCounter {
    pub closed spec fn next(&self) -> usize {
        self.next
    }
}

/// The counter at its start, before any id is handed out.
pub fn init_pid_subsystem() -> (c: PidCounter)
    ensures
        c.next() == FIRST_PID,
{
    PidCounter { next: FIRST_PID }
}

/// Hand out the next id; the counter moves past it. The ids are used up
/// when the counter reaches `usize::MAX - 2`.
pub fn generate_new_pid(c: &mut PidCounter) -> (pid: usize)
    requires
        old(c).next() != usize::MAX - 2,
        old(c).next() < usize::MAX,
    ensures
        pid == old(c).next(),
        final(c).next() == old(c).next() + 1,
{
    let pid = c.next;
    c.next = c.next + 1;
    pid
}

/// Release `pid`: when it is the last id handed out, the counter moves back
/// to it so that it is handed out again; otherwise it is not used again.
pub fn return_used_pid(c: &mut PidCounter, pid: usize)
    ensures
        final(c).next() == if pid < usize::MAX && old(c).next() == pid + 1 {
            pid
        } else {
            old(c).next()
        },
{
    if pid < usize::MAX && c.next == pid + 1 {
        c.next = pid;
    }
}

/// Releasing the id just handed out gives the counter back as it was.
pub proof fn law_return_undoes_generate(before: PidCounter, mid: PidCounter, after: PidCounter, pid: usize)
    requires
        pid == before.next(),
        mid.next() == before.next() + 1,
        after.next() == if pid < usize::MAX && mid.next() == pid + 1 {
            pid
        } else {
            mid.next()
        },
    ensures
        after.next() == before.next(),
{
}

} // verus!
