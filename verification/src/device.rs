//! Devices of the qemu virt machine: what to write where, and what the
//! answers mean. The register accesses themselves are the caller's.
pub mod clint;
pub mod plic;
pub mod uart;
pub mod virtio;
