//! Processes: their state, address space and the decisions taken when they
//! start, yield and stop.
pub mod blocking;
pub mod initialization;
pub mod pid;
pub mod scheduler;
pub mod syscall;

use vstd::prelude::*;
use crate::vm::ptable::PageTable;
use crate::vm::PhysPageExtent;
use crate::id::IdGenerator;

verus! {

/// Where a process is in its life.
#[derive(Copy, Clone, Debug, PartialEq, Eq, Structural)]
pub enum ProcessState {
    /// Do not attempt to run.
    Uninitialized,
    /// Ready to run for the first time: no registers to restore.
    Unstarted,
    /// Can run; its registers are saved.
    Ready,
    /// Running on a hart; not to be used elsewhere.
    Running,
    /// Waiting for the blocking resource with this id.
    Blocked(usize),
    /// Out of the running until the time given.
    Sleep(u64),
    /// Finished; do not run.
    Dead,
}

/// A process. It may be largely uninitialized, so check the state.
pub struct Process {
    pub saved_pc: u64,
    pub saved_sp: u64,
    pub id: usize,
    pub state: ProcessState,
    pub pgtbl: PageTable,
    /// Physical pages owned by the process: its root page table page, its
    /// segments and its stack.
    pub phys_pages: Vec<PhysPageExtent>,
    pub resource_id_gen: IdGenerator,
}

impl Process {
    /// A process that holds nothing and means nothing until it is
    /// initialized.
    pub fn new_uninit() -> (p: Self)
        ensures
            p.id == 0,
            p.state == ProcessState::Uninitialized,
            p.pgtbl.base == 0,
            p.phys_pages@.len() == 0,
            p.resource_id_gen.wf(),
            p.resource_id_gen.in_use() == Set::<usize>::empty(),
            p.resource_id_gen.counter() == 0,
            p.saved_pc == 0,
            p.saved_sp == 0,
    {
        Process {
            id: 0,
            state: ProcessState::Uninitialized,
            pgtbl: PageTable::new(0),
            phys_pages: Vec::new(),
            resource_id_gen: IdGenerator::new(),
            saved_pc: 0,
            saved_sp: 0,
        }
    }

    /// Mark an unstarted process as running, and give the program counter,
    /// page table root and stack pointer to enter it with. Only an
    /// `Unstarted` process can be started.
    pub fn start(&mut self) -> (r: (u64, u64, u64))
        requires
            old(self).state == ProcessState::Unstarted,
        ensures
            final(self).state == ProcessState::Running,
            r == (old(self).saved_pc, old(self).pgtbl.base, old(self).saved_sp),
            final(self).saved_pc == old(self).saved_pc,
            final(self).saved_sp == old(self).saved_sp,
            final(self).id == old(self).id,
            final(self).pgtbl == old(self).pgtbl,
            final(self).phys_pages@ == old(self).phys_pages@,
    {
        self.state = ProcessState::Running;
        (self.saved_pc, self.pgtbl.base, self.saved_sp)
    }

    /// Mark a ready process as running, and give the program counter, page
    /// table root and stack pointer to return to it with. Only a `Ready`
    /// process can be resumed.
    pub fn resume(&mut self) -> (r: (u64, u64, u64))
        requires
            old(self).state == ProcessState::Ready,
        ensures
            final(self).state == ProcessState::Running,
            r == (old(self).saved_pc, old(self).pgtbl.base, old(self).saved_sp),
            final(self).saved_pc == old(self).saved_pc,
            final(self).saved_sp == old(self).saved_sp,
            final(self).id == old(self).id,
            final(self).pgtbl == old(self).pgtbl,
            final(self).phys_pages@ == old(self).phys_pages@,
    {
        self.state = ProcessState::Running;
        (self.saved_pc, self.pgtbl.base, self.saved_sp)
    }

    /// Suspend the running process after a system call at `pc` so that it
    /// continues after that instruction when it runs again. The only cause
    /// known is 0, an explicit yield, which leaves the process `Ready`.
    pub fn pause(&mut self, pc: u64, sp: u64, cause: usize)
        requires
            cause == 0,
            pc + 4 <= u64::MAX,
        ensures
            final(self).saved_pc == pc + 4,
            final(self).saved_sp == sp,
            final(self).state == ProcessState::Ready,
            final(self).id == old(self).id,
            final(self).pgtbl == old(self).pgtbl,
            final(self).phys_pages@ == old(self).phys_pages@,
    {
        self.saved_pc = pc + 4;
        self.saved_sp = sp;
        self.state = ProcessState::Ready;
    }

    /// Tear down a process that is not running: its id goes back to `pids`,
    /// and its physical pages are handed back for release.
    pub fn retire(self, pids: &mut IdGenerator) -> (pages: Vec<PhysPageExtent>)
        requires
            self.state != ProcessState::Running,
            old(pids).wf(),
            old(pids).in_use().contains(self.id),
        ensures
            final(pids).wf(),
            final(pids).in_use() == old(pids).in_use().remove(self.id),
            pages@ == self.phys_pages@,
    {
        pids.free(self.id);
        self.phys_pages
    }
}

} // verus!
