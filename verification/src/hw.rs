//! Per-hart state.
use vstd::prelude::*;
use crate::process::Process;

verus! {

/// Saved general purpose registers of a hart.
pub struct HartContext {
    pub regs: [u64; 32],
}

/// A hart: its id, the process it runs and its saved registers.
pub struct Hart {
    pub id: usize,
    pub process: Process,
    pub ctx_regs: HartContext,
}

/// What a hart keeps through its global pointer: the process it runs.
pub struct GPInfo {
    pub current_process: Process,
}

impl GPInfo {
    pub fn new(current_process: Process) -> (g: Self)
        ensures
            g.current_process == current_process,
    {
        GPInfo { current_process }
    }
}

/// How important a log line is.
#[derive(Copy, Clone, Debug, PartialEq, Eq, Structural)]
pub enum LogSeverity {
    Debug,
    Info,
    Warning,
    Error,
}

} // verus!
