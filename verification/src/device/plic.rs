//! Platform-level interrupt controller: register addresses.
use vstd::prelude::*;
use crate::param::{UART_IRQ, VIRTIO_IRQ};

verus! {

/// The interrupt controller at `base`.
#[derive(Copy, Clone, Debug, PartialEq, Eq, Structural)]
pub struct Plic {
    pub base: u64,
}

/// The PLIC address space this model covers (4 MiB).
pub open spec fn plic_span() -> int {
    0x40_0000
}

impl Plic {
    pub fn new(base: u64) -> (p: Self)
        ensures
            p.base == base,
    {
        Plic { base }
    }

    /// Address of the priority register of interrupt `irq`.
    pub fn priority_addr(&self, irq: u64) -> (a: u64)
        requires
            irq < 1024,
            self.base + 4096 <= u64::MAX,
        ensures
            a == self.base + 4 * irq,
    {
        self.base + 4 * irq
    }

    /// Address of the supervisor priority threshold register of `hart`.
    pub fn threshold_addr(&self, hart: u64) -> (a: u64)
        requires
            hart < 16,
            self.base + plic_span() <= u64::MAX,
        ensures
            a == self.base + 0x201000 + hart * 0x2000,
    {
        self.base + (0x201000 + hart * 0x2000) / 4 * 4
    }

    /// Address of the supervisor enable bits of `hart`.
    pub fn enable_addr(&self, hart: u64) -> (a: u64)
        requires
            hart < 16,
            self.base + plic_span() <= u64::MAX,
        ensures
            a == self.base + 0x2080 + hart * 0x100,
    {
        self.base + (0x2080 + hart * 0x100) / 4 * 4
    }

    /// Address of the claim and complete register of `hart`.
    pub fn claim_addr(&self, hart: u64) -> (a: u64)
        requires
            hart < 16,
            self.base + plic_span() <= u64::MAX,
        ensures
            a == self.base + 0x201004 + hart * 0x2000,
    {
        self.base + (0x201004 + hart * 0x2000) / 4 * 4
    }
}

/// The interrupts a hart enables: the UART's and the block device's.
pub fn enable_mask() -> (m: u32)
    ensures
        m == 0x400 + 0x2,
{
    proof {
        assert((1u32 << 10u32) | (1u32 << 1u32) == 0x402) by (bit_vector);
    }
    (1u32 << (UART_IRQ as u32)) | (1u32 << (VIRTIO_IRQ as u32))
}

} // verus!
