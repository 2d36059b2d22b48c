//! Trap causes and what the kernel does about them.
use vstd::prelude::*;
use crate::param::{UART_IRQ, VIRTIO_IRQ};

verus! {

/// `scause` of a supervisor external interrupt.
pub const S_EXTERN_IRQ: u64 = 0x8000_0000_0000_0009;

/// `mcause` of a machine timer interrupt.
pub const MSTATUS_TIMER: u64 = 0x8000_0000_0000_0007;

/// Timer ticks between machine timer interrupts.
pub const TIMER_INTERVAL: u64 = 10_000_000;

/// What a supervisor trap is.
#[derive(Copy, Clone, Debug, PartialEq, Eq, Structural)]
pub enum STrap {
    External,
    Unhandled,
}

/// What a machine trap is.
#[derive(Copy, Clone, Debug, PartialEq, Eq, Structural)]
pub enum MTrap {
    Timer,
    Unhandled,
}

/// Which device an external interrupt claimed from the PLIC comes from.
#[derive(Copy, Clone, Debug, PartialEq, Eq, Structural)]
pub enum IrqSource {
    NoInterrupt,
    Uart,
    Virtio,
    Unknown,
}

pub fn s_trap_kind(cause: u64) -> (t: STrap)
    ensures
        t == if cause == S_EXTERN_IRQ {
            STrap::External
        } else {
            STrap::Unhandled
        },
{
    if cause == S_EXTERN_IRQ {
        STrap::External
    } else {
        STrap::Unhandled
    }
}

pub fn m_trap_kind(mcause: u64) -> (t: MTrap)
    ensures
        t == if mcause == MSTATUS_TIMER {
            MTrap::Timer
        } else {
            MTrap::Unhandled
        },
{
    if mcause == MSTATUS_TIMER {
        MTrap::Timer
    } else {
        MTrap::Unhandled
    }
}

/// Interrupt number 0 means no interrupt; the UART's and the block
/// device's are known.
pub fn irq_source(irq: u32) -> (s: IrqSource)
    ensures
        s == if irq == 0 {
            IrqSource::NoInterrupt
        } else if irq == UART_IRQ {
            IrqSource::Uart
        } else if irq == VIRTIO_IRQ {
            IrqSource::Virtio
        } else {
            IrqSource::Unknown
        },
{
    if irq == 0 {
        IrqSource::NoInterrupt
    } else if irq as u64 == UART_IRQ {
        IrqSource::Uart
    } else if irq as u64 == VIRTIO_IRQ {
        IrqSource::Virtio
    } else {
        IrqSource::Unknown
    }
}

/// The next timer compare value: one interval after `mtime`, wrapping.
pub fn next_mtimecmp(mtime: u64) -> (r: u64)
    ensures
        r == (mtime + TIMER_INTERVAL) % 0x1_0000_0000_0000_0000,
{
    mtime.wrapping_add(TIMER_INTERVAL)
}

} // verus!
