//! System parameters and memory layout of the qemu riscv virt machine.
use vstd::prelude::*;

verus! {

/// CLINT base address.
pub const CLINT_BASE: u64 = 0x200_0000;

/// PLIC base address.
pub const PLIC_BASE: u64 = 0xc00_0000;

/// PLIC size in memory.
pub const PLIC_SIZE: u64 = 0x40_0000;

/// UART base address.
pub const UART_BASE: u64 = 0x1000_0000;

/// UART interrupt request number.
pub const UART_IRQ: u64 = 10;

/// VIRTIO base address.
pub const VIRTIO_BASE: u64 = 0x1000_1000;

/// VIRTIO size.
pub const VIRTIO_SIZE: u64 = 0x4000;

/// VIRTIO interrupt request number.
pub const VIRTIO_IRQ: u64 = 1;

/// Start of kernel memory (first .text section goes here).
pub const DRAM_BASE: u64 = 0x8000_0000;

/// Size of a physical page in bytes.
pub const PAGE_SIZE: u64 = 4096;

/// Number of harts the kernel is configured for.
pub const NHART: usize = 2;

} // verus!
