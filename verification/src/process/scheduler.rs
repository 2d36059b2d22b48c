//! The process scheduler: a round robin queue of processes that can run now
//! or later.
use vstd::prelude::*;
use std::collections::VecDeque;
use crate::process::{Process, ProcessState};

verus! {

/// The states a process may be queued in.
pub open spec fn schedulable(s: ProcessState) -> bool {
    s == ProcessState::Ready || s == ProcessState::Unstarted
}

/// A round robin queue of processes, front first. Locking, where needed, is
/// left to the owner.
pub struct ProcessQueue {
    proc_queue: VecDeque<Process>,
}

impl ProcessQueue {
    /// The queued processes, front first.
    pub closed spec fn queue(&self) -> Seq<Process> {
        self.proc_queue@
    }

    /// Every queued process can be run.
    pub open spec fn wf(&self) -> bool {
        forall|i: int| 0 <= i < self.queue().len() ==> schedulable(#[trigger] self.queue()[i].state)
    }

    pub fn new() -> (q: Self)
        ensures
            q.wf(),
            q.queue() == Seq::<Process>::empty(),
    {
        ProcessQueue { proc_queue: VecDeque::new() }
    }

    /// Number of queued processes.
    pub fn len(&self) -> (n: usize)
        ensures
            n == self.queue().len(),
    {
        self.proc_queue.len()
    }

    /// Take the next process to run: the one at the front. The queue must
    /// not be empty.
    pub fn get_ready_process(&mut self) -> (p: Process)
        requires
            old(self).wf(),
            old(self).queue().len() > 0,
        ensures
            final(self).wf(),
            p == old(self).queue()[0],
            schedulable(p.state),
            final(self).queue() == old(self).queue().drop_first(),
    {
        let head = self.proc_queue.pop_front();
        proof {
            assert(schedulable(old(self).queue()[0].state));
            assert forall|i: int| 0 <= i < self.queue().len() implies schedulable(
                #[trigger] self.queue()[i].state,
            ) by {
                assert(self.queue()[i] == old(self).queue()[i + 1]);
            }
        }
        match head {
            Some(h) => h,
            None => {
                proof {
                    assert(false);
                }
                Process::new_uninit()
            },
        }
    }

    /// Queue a process that stopped running but is not done: it yielded, or
    /// was just initialized. Only a `Ready` or `Unstarted` process may be
    /// queued.
    pub fn insert(&mut self, proc: Process)
        requires
            old(self).wf(),
            schedulable(proc.state),
        ensures
            final(self).wf(),
            final(self).queue() == old(self).queue().push(proc),
    {
        self.proc_queue.push_back(proc);
        proof {
            assert forall|i: int| 0 <= i < self.queue().len() implies schedulable(
                #[trigger] self.queue()[i].state,
            ) by {
                if i < old(self).queue().len() {
                    assert(self.queue()[i] == old(self).queue()[i]);
                }
            }
        }
    }
}

/// Round robin: a process queued behind others runs after them; on an
/// empty queue it is the next to run.
pub proof fn law_round_robin(
    q0: &ProcessQueue,
    q1: &ProcessQueue,
    q2: &ProcessQueue,
    p: Process,
    next: Process,
)
    requires
        q1.queue() == q0.queue().push(p),
        next == q1.queue()[0],
        q2.queue() == q1.queue().drop_first(),
    ensures
        q0.queue().len() == 0 ==> next == p && q2.queue() == Seq::<Process>::empty(),
        q0.queue().len() > 0 ==> next == q0.queue()[0] && q2.queue() == q0.queue().drop_first().push(
            p,
        ),
{
    if q0.queue().len() == 0 {
        assert(q2.queue() =~= Seq::<Process>::empty());
    } else {
        assert(q2.queue() =~= q0.queue().drop_first().push(p));
    }
}

} // verus!
