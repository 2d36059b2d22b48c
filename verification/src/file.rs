//! File formats.
pub mod elf64;
