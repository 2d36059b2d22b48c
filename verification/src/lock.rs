//! Decisions of the spinning locks. A reader-writer lock's state is twice
//! the number of readers, plus one when a writer waits; `WRITE_LOCKED` when
//! a writer holds it. The atomic operations are the caller's.
use vstd::prelude::*;

verus! {

/// State of a reader-writer lock held by a writer.
pub const WRITE_LOCKED: u32 = 0xffff_ffff;

/// What to do next from an observed lock state.
#[derive(Copy, Clone, Debug, PartialEq, Eq, Structural)]
pub enum RwStep {
    /// Compare and exchange the state: from the first value to the second.
    Cas(u32, u32),
    /// Spin, then observe the state again.
    Spin,
}

/// A reader waits while a writer holds or waits for the lock; otherwise it
/// adds itself. The reader count must stay below its bound.
pub fn read_step(s: u32) -> (r: RwStep)
    requires
        s != u32::MAX - 1,
    ensures
        r == if s % 2 == 0 {
            RwStep::Cas(s, (s + 2) as u32)
        } else {
            RwStep::Spin
        },
{
    if s % 2 == 0 {
        RwStep::Cas(s, s + 2)
    } else {
        RwStep::Spin
    }
}

/// A writer takes the lock when no reader holds it; otherwise it marks
/// itself waiting, which holds new readers off; then it spins.
pub fn write_step(s: u32) -> (r: RwStep)
    ensures
        r == if s <= 1 {
            RwStep::Cas(s, WRITE_LOCKED)
        } else if s % 2 == 0 {
            RwStep::Cas(s, (s + 1) as u32)
        } else {
            RwStep::Spin
        },
{
    if s <= 1 {
        RwStep::Cas(s, WRITE_LOCKED)
    } else if s % 2 == 0 {
        RwStep::Cas(s, s + 1)
    } else {
        RwStep::Spin
    }
}

/// A reader leaves: the state after, and whether it was the last reader
/// with a writer waiting.
pub fn read_release(s: u32) -> (r: (u32, bool))
    requires
        s >= 2,
    ensures
        r == ((s - 2) as u32, s == 3),
{
    (s - 2, s == 3)
}

/// A reader is let in only when no writer holds or waits for the lock, and a
/// writer takes it only when no reader holds it.
pub proof fn law_rw_exclusion(s: u32)
    requires
        s != u32::MAX - 1,
    ensures
        (read_step_spec(s) matches RwStep::Cas(e, n) ==> e == s && s % 2 == 0 && n % 2 == 0),
        (write_step_spec(s) matches RwStep::Cas(e, n) ==> n == WRITE_LOCKED ==> s <= 1),
        s == WRITE_LOCKED ==> read_step_spec(s) == RwStep::Spin,
{
}

pub open spec fn read_step_spec(s: u32) -> RwStep {
    if s % 2 == 0 {
        RwStep::Cas(s, (s + 2) as u32)
    } else {
        RwStep::Spin
    }
}

pub open spec fn write_step_spec(s: u32) -> RwStep {
    if s <= 1 {
        RwStep::Cas(s, WRITE_LOCKED)
    } else if s % 2 == 0 {
        RwStep::Cas(s, (s + 1) as u32)
    } else {
        RwStep::Spin
    }
}

/// A token for the span of a critical section.
pub struct CriticalSection;

impl CriticalSection {
    pub fn new() -> (c: Self) {
        CriticalSection
    }
}

} // verus!
