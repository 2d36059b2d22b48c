//! Core-local interruptor: the timer scratch area each hart hands to its
//! machine mode timer handler.
use vstd::prelude::*;
use crate::param::NHART;

verus! {

/// Words of scratch space per hart: three saved registers, the address of
/// the hart's `mtimecmp` register and the timer interval.
pub const SCRATCH_WORDS: usize = 5;

/// The CLINT at `base`, with the scratch words of every hart in order.
pub struct Clint {
    pub base: u64,
    pub scratchpad: Vec<u64>,
}

impl Clint {
    /// Zeroed scratch space for every hart.
    pub fn new(base: u64) -> (c: Self)
        ensures
            c.base == base,
            c.scratchpad@ == Seq::new((NHART * SCRATCH_WORDS) as nat, |i: int| 0u64),
    {
        let mut scratchpad: Vec<u64> = Vec::new();
        let mut i: usize = 0;
        while i < NHART * SCRATCH_WORDS
            invariant
                i <= NHART * SCRATCH_WORDS,
                scratchpad@ == Seq::new(i as nat, |k: int| 0u64),
            decreases NHART * SCRATCH_WORDS - i,
        {
            scratchpad.push(0);
            proof {
                assert(scratchpad@ =~= Seq::new((i + 1) as nat, |k: int| 0u64));
            }
            i = i + 1;
        }
        Clint { base, scratchpad }
    }

    /// Set up the scratch space of `hartid`: the address of its `mtimecmp`
    /// register and the timer interval.
    pub fn init(&mut self, hartid: usize, interval: u64)
        requires
            hartid < NHART,
            old(self).scratchpad@.len() == NHART * SCRATCH_WORDS,
            old(self).base + 0x4000 + 8 * NHART <= u64::MAX,
        ensures
            final(self).base == old(self).base,
            final(self).scratchpad@ == old(self).scratchpad@.update(
                hartid * SCRATCH_WORDS + 3,
                (old(self).base + 0x4000 + 8 * hartid) as u64,
            ).update(hartid * SCRATCH_WORDS + 4, interval),
    {
        let at = hartid * SCRATCH_WORDS;
        self.scratchpad.set(at + 3, self.base + 0x4000 + 8 * (hartid as u64));
        self.scratchpad.set(at + 4, interval);
    }

    /// Address of the `mtimecmp` register of `hartid`.
    pub fn mtimecmp_addr(&self, hartid: u64) -> (a: u64)
        requires
            hartid < NHART,
            self.base + 0x4000 + 8 * NHART <= u64::MAX,
        ensures
            a == self.base + 0x4000 + 8 * hartid,
    {
        self.base + 0x4000 + 8 * hartid
    }

    /// Address of the `mtime` register.
    pub fn mtime_addr(&self) -> (a: u64)
        requires
            self.base + 0xBFF8 <= u64::MAX,
        ensures
            a == self.base + 0xBFF8,
    {
        self.base + 0xBFF8
    }
}

} // verus!
