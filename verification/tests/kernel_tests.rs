use lib::hw::GPInfo;
use lib::id::IdGenerator;
use lib::lock::{read_release, read_step, write_step, RwStep, WRITE_LOCKED};
use lib::process::blocking::{settle, Block, Blockable, ReqErr, ReqId, ReqType};
use lib::process::scheduler::ProcessQueue;
use lib::process::syscall::{scall_direct, CLOSE, OPENAT, READ, SCHED_YIELD, WRITE};
use lib::process::{Process, ProcessState};
use lib::trap::{
    irq_source, m_trap_kind, next_mtimecmp, s_trap_kind, IrqSource, MTrap, STrap, MSTATUS_TIMER,
    S_EXTERN_IRQ, TIMER_INTERVAL,
};

#[test]
fn ids_come_from_a_counter_skipping_those_in_use() {
    let mut g = IdGenerator::new();
    assert_eq!(g.generate(), 0);
    assert_eq!(g.generate(), 1);
    assert_eq!(g.generate(), 2);
    g.free(1);
    // The counter has moved on; a freed id is not handed out at once.
    assert_eq!(g.generate(), 3);
    g.free(0);
    assert_eq!(g.generate(), 4);
}

#[test]
fn generate_moves_past_freed_ids() {
    let mut g = IdGenerator::new();
    let a = g.generate();
    g.free(a);
    let b = g.generate();
    assert_ne!(a, b);
    g.free(b);
    assert_eq!(g.generate(), b + 1);
}

fn process(id: usize, state: ProcessState) -> Process {
    let mut p = Process::new_uninit();
    p.id = id;
    p.state = state;
    p
}

#[test]
fn scheduler_runs_processes_round_robin() {
    let mut q = ProcessQueue::new();
    assert_eq!(q.len(), 0);
    q.insert(process(1, ProcessState::Ready));
    q.insert(process(2, ProcessState::Unstarted));
    q.insert(process(3, ProcessState::Ready));
    assert_eq!(q.len(), 3);
    let first = q.get_ready_process();
    assert_eq!(first.id, 1);
    q.insert(first);
    assert_eq!(q.get_ready_process().id, 2);
    assert_eq!(q.get_ready_process().id, 3);
    assert_eq!(q.get_ready_process().id, 1);
    assert_eq!(q.len(), 0);
}

/// A resource with a number of readers and at most one writer.
struct Shared {
    readers: usize,
    writer: bool,
    next: usize,
}

impl Blockable for Shared {
    fn request(&mut self, req: &ReqType) -> Result<ReqId, ReqErr> {
        match req {
            ReqType::Read if !self.writer => self.readers += 1,
            ReqType::Write if !self.writer && self.readers == 0 => self.writer = true,
            _ => return Err(ReqErr::InUse),
        }
        self.next += 1;
        Ok(ReqId { id: self.next, req: *req })
    }

    fn release(&mut self, req: ReqId) {
        match req.req {
            ReqType::Read => self.readers -= 1,
            ReqType::Write => self.writer = false,
        }
    }
}

#[test]
fn block_grants_what_the_resource_allows_and_queues_the_rest() {
    let mut b = Block::new(Shared { readers: 0, writer: false, next: 0 });
    let g = b.request(ReqType::Write, 7);
    assert_eq!(g, vec![(7, ReqId { id: 1, req: ReqType::Write })]);
    assert!(b.request(ReqType::Read, 8).is_empty());
    assert!(b.request(ReqType::Read, 9).is_empty());
    // Releasing the writer lets both waiting readers in, in order.
    let g = b.release(ReqId { id: 1, req: ReqType::Write });
    assert_eq!(
        g,
        vec![(8, ReqId { id: 2, req: ReqType::Read }), (9, ReqId { id: 3, req: ReqType::Read })]
    );
    assert!(b.request(ReqType::Write, 10).is_empty());
    assert!(b.release(ReqId { id: 2, req: ReqType::Read }).is_empty());
    let g = b.release(ReqId { id: 3, req: ReqType::Read });
    assert_eq!(g, vec![(10, ReqId { id: 4, req: ReqType::Write })]);
}

#[test]
fn rw_lock_steps() {
    assert_eq!(read_step(0), RwStep::Cas(0, 2));
    assert_eq!(read_step(4), RwStep::Cas(4, 6));
    assert_eq!(read_step(5), RwStep::Spin);
    assert_eq!(read_step(WRITE_LOCKED), RwStep::Spin);
    assert_eq!(write_step(0), RwStep::Cas(0, WRITE_LOCKED));
    assert_eq!(write_step(1), RwStep::Cas(1, WRITE_LOCKED));
    assert_eq!(write_step(4), RwStep::Cas(4, 5));
    assert_eq!(write_step(5), RwStep::Spin);
    assert_eq!(read_release(4), (2, false));
    assert_eq!(read_release(3), (1, true));
}

#[test]
fn trap_causes_are_told_apart() {
    assert_eq!(s_trap_kind(S_EXTERN_IRQ), STrap::External);
    assert_eq!(s_trap_kind(5), STrap::Unhandled);
    assert_eq!(m_trap_kind(MSTATUS_TIMER), MTrap::Timer);
    assert_eq!(m_trap_kind(S_EXTERN_IRQ), MTrap::Unhandled);
    assert_eq!(irq_source(0), IrqSource::NoInterrupt);
    assert_eq!(irq_source(10), IrqSource::Uart);
    assert_eq!(irq_source(1), IrqSource::Virtio);
    assert_eq!(irq_source(7), IrqSource::Unknown);
}

#[test]
fn next_timer_compare_wraps() {
    assert_eq!(next_mtimecmp(5), 5 + TIMER_INTERVAL);
    assert_eq!(next_mtimecmp(u64::MAX), TIMER_INTERVAL - 1);
}

#[test]
fn direct_syscalls_are_yield_open_and_close() {
    assert_eq!(scall_direct(SCHED_YIELD), 1);
    assert_eq!(scall_direct(OPENAT), 1);
    assert_eq!(scall_direct(CLOSE), 1);
    assert_eq!(scall_direct(READ), 0);
    assert_eq!(scall_direct(WRITE), 0);
    assert_eq!(scall_direct(999), 0);
}

#[test]
fn gpinfo_holds_the_current_process() {
    let g = GPInfo::new(process(4, ProcessState::Running));
    assert_eq!(g.current_process.id, 4);
}

#[test]
fn pids_start_at_two_and_count_up() {
    let mut c = lib::process::pid::init_pid_subsystem();
    assert_eq!(lib::process::pid::generate_new_pid(&mut c), 2);
    assert_eq!(lib::process::pid::generate_new_pid(&mut c), 3);
    assert_eq!(lib::process::pid::generate_new_pid(&mut c), 4);
}

#[test]
fn returning_the_last_pid_hands_it_out_again() {
    let mut c = lib::process::pid::init_pid_subsystem();
    let a = lib::process::pid::generate_new_pid(&mut c);
    let b = lib::process::pid::generate_new_pid(&mut c);
    lib::process::pid::return_used_pid(&mut c, b);
    assert_eq!(lib::process::pid::generate_new_pid(&mut c), b);
    // An older pid is not handed out again.
    lib::process::pid::return_used_pid(&mut c, a);
    assert_eq!(lib::process::pid::generate_new_pid(&mut c), b + 1);
}

#[test]
fn kbox_holds_its_value() {
    let b = lib::mem::Kbox::new(41u64);
    assert_eq!(*b.get(), 41);
    assert_eq!(b.into_inner(), 41);
    let t = lib::mem::BalBst { left: Some(lib::mem::Kbox::new(1u8)), right: None };
    assert_eq!(*t.left.as_ref().unwrap().get(), 1);
    assert!(t.right.is_none());
}

#[test]
fn settle_keeps_the_refused_and_returns_the_granted() {
    let waiting = vec![(ReqType::Read, 1), (ReqType::Write, 2), (ReqType::Read, 3)];
    let answers = vec![
        Ok(ReqId { id: 9, req: ReqType::Read }),
        Err(ReqErr::InUse),
        Ok(ReqId { id: 10, req: ReqType::Read }),
    ];
    let (kept, granted) = settle(&waiting, &answers);
    assert_eq!(kept, vec![(ReqType::Write, 2)]);
    assert_eq!(
        granted,
        vec![(1, ReqId { id: 9, req: ReqType::Read }), (3, ReqId { id: 10, req: ReqType::Read })]
    );
}

#[test]
fn a_granted_request_does_not_wait() {
    let mut b = Block::new(Shared { readers: 1, writer: false, next: 0 });
    // A writer waits behind the reader; a new reader is let in at once.
    assert!(b.request(ReqType::Write, 1).is_empty());
    assert_eq!(b.request(ReqType::Read, 2), vec![(2, ReqId { id: 1, req: ReqType::Read })]);
}
