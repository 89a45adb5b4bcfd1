use vstd::prelude::*;

verus! {

use crate::MessageRef;

/// One pending deletion. `attempt` numbers the delivery attempt the task is
/// waiting for, starting at 1; a failed deletion increments it.
#[derive(Clone, Copy, PartialEq, Eq, Structural, Debug)]
pub struct DeletionTask {
    pub target: MessageRef,
    pub posted_at: u64,
    pub due_at: u64,
    pub attempt: u64,
}

/// What the scheduler's single worker should do next.
#[derive(Clone, Copy, PartialEq, Eq, Structural, Debug)]
pub enum WorkerStep {
    /// The queue is empty: the worker stops; the next enqueue restarts it.
    Idle,
    /// The head task is not due yet: suspend this long, then ask again.
    Sleep { duration: u64 },
    /// The head task is due: attempt to delete its target.
    DeleteHead { target: MessageRef },
}

/// Ordered by due time, head first.
pub open spec fn due_sorted(q: Seq<DeletionTask>) -> bool {
    forall|i: int, j: int|
        0 <= i < j < q.len() ==> (#[trigger] q[i]).due_at <= (#[trigger] q[j]).due_at
}

/// The delayed-deletion scheduler: an ordered queue of pending deletions, the
/// fixed expiry delay, and the single background worker's running flag.
pub struct Scheduler {
    queue: Vec<DeletionTask>,
    delay: u64,
    worker_running: bool,
}

impl Scheduler {
    /// The pending tasks, head first.
    pub closed spec fn tasks(self) -> Seq<DeletionTask> {
        self.queue@
    }

    /// The fixed delay between a message's posting and its expiry.
    pub closed spec fn fixed_delay(self) -> u64 {
        self.delay
    }

    /// Whether the single worker is running.
    pub closed spec fn worker(self) -> bool {
        self.worker_running
    }

    /// Well-formed: every task is due exactly the fixed delay after it was
    /// posted, the queue is ordered by due time, every attempt count is at
    /// least 1, and the worker runs exactly while the queue is nonempty.
    pub open spec fn wf(self) -> bool {
        &&& forall|i: int|
            0 <= i < self.tasks().len() ==> (#[trigger] self.tasks()[i]).due_at == self.tasks()[
                i
            ].posted_at + self.fixed_delay()
        &&& forall|i: int| 0 <= i < self.tasks().len() ==> (#[trigger] self.tasks()[i]).attempt >= 1
        &&& due_sorted(self.tasks())
        &&& self.worker() == (self.tasks().len() > 0)
    }

    /// An empty scheduler with the given fixed delay; no worker runs.
    pub fn new(delay: u64) -> (s: Self)
        ensures
            s.wf(),
            s.tasks() == Seq::<DeletionTask>::empty(),
            s.fixed_delay() == delay,
            !s.worker(),
    {
        let s = Scheduler { queue: Vec::new(), delay, worker_running: false };
        proof {
            assert(s.tasks() =~= Seq::<DeletionTask>::empty());
        }
        s
    }

    /// Appends a deletion task for a message posted at `posted_at`, due the
    /// fixed delay later. Returns true exactly when the queue was empty, that
    /// is, exactly when the caller must start the worker: concurrent enqueues
    /// never see two starts for one quiet period.
    pub fn enqueue(&mut self, target: MessageRef, posted_at: u64) -> (start_worker: bool)
        requires
            old(self).wf(),
            posted_at + old(self).fixed_delay() <= u64::MAX,
            old(self).tasks().len() > 0 ==> old(self).tasks().last().posted_at <= posted_at,
        ensures
            final(self).wf(),
            final(self).fixed_delay() == old(self).fixed_delay(),
            final(self).tasks() == old(self).tasks().push(
                (DeletionTask {
                    target,
                    posted_at,
                    due_at: (posted_at + old(self).fixed_delay()) as u64,
                    attempt: 1,
                }),
            ),
            start_worker == (old(self).tasks().len() == 0),
            final(self).worker(),
    {
        let was_empty = self.queue.len() == 0;
        let task = DeletionTask {
            target,
            posted_at,
            due_at: posted_at + self.delay,
            attempt: 1,
        };
        self.queue.push(task);
        self.worker_running = true;
        proof {
            let q = self.tasks();
            let prev = old(self).tasks();
            assert forall|i: int, j: int|
                0 <= i < j < q.len() implies (#[trigger] q[i]).due_at <= (#[trigger] q[j]).due_at by {
                if j < prev.len() {
                    assert(prev[i].due_at <= prev[j].due_at);
                } else {
                    assert(q[j] == task);
                    if i < prev.len() {
                        if prev.len() > 1 && i < prev.len() - 1 {
                            assert(prev[i].due_at <= prev[prev.len() - 1].due_at);
                        }
                        assert(prev.last() == prev[prev.len() - 1]);
                        assert(prev[i].due_at <= task.due_at);
                    }
                }
            }
        }
        was_empty
    }

    /// How many deletions are pending.
    pub fn task_count(&self) -> (n: usize)
        ensures
            n == self.tasks().len(),
    {
        self.queue.len()
    }

    /// The task at the head of the queue, if any.
    pub fn head_task(&self) -> (t: Option<DeletionTask>)
        ensures
            t == if self.tasks().len() == 0 {
                Option::None::<DeletionTask>
            } else {
                Option::Some(self.tasks()[0])
            },
    {
        if self.queue.len() == 0 {
            Option::None
        } else {
            Option::Some(self.queue[0])
        }
    }

    /// The worker's next step at time `now`: stop on an empty queue, sleep
    /// until the head task is due, or delete the head task's target.
    pub fn next_step(&self, now: u64) -> (step: WorkerStep)
        ensures
            step == if self.tasks().len() == 0 {
                WorkerStep::Idle
            } else if now < self.tasks()[0].due_at {
                WorkerStep::Sleep { duration: (self.tasks()[0].due_at - now) as u64 }
            } else {
                WorkerStep::DeleteHead { target: self.tasks()[0].target }
            },
    {
        if self.queue.len() == 0 {
            WorkerStep::Idle
        } else {
            let head = self.queue[0];
            if now < head.due_at {
                WorkerStep::Sleep { duration: head.due_at - now }
            } else {
                WorkerStep::DeleteHead { target: head.target }
            }
        }
    }

    /// The head task's deletion succeeded: the task leaves the queue, and the
    /// worker stops exactly when the queue became empty.
    pub fn head_deleted(&mut self)
        requires
            old(self).wf(),
            old(self).tasks().len() > 0,
        ensures
            final(self).wf(),
            final(self).fixed_delay() == old(self).fixed_delay(),
            final(self).tasks() == old(self).tasks().drop_first(),
    {
        self.queue.remove(0);
        if self.queue.len() == 0 {
            self.worker_running = false;
        }
        proof {
            assert(self.tasks() =~= old(self).tasks().drop_first());
            let q = self.tasks();
            let prev = old(self).tasks();
            assert(forall|i: int| 0 <= i < q.len() ==> #[trigger] q[i] == prev[i + 1]);
        }
    }

    /// The head task's deletion failed: the task stays at the head with its
    /// attempt count one higher, so it is retried before any task with a
    /// later due time, and no task is lost.
    pub fn head_failed(&mut self)
        requires
            old(self).wf(),
            old(self).tasks().len() > 0,
            old(self).tasks()[0].attempt < u64::MAX,
        ensures
            final(self).wf(),
            final(self).fixed_delay() == old(self).fixed_delay(),
            final(self).tasks() == old(self).tasks().update(
                0,
                (DeletionTask {
                    target: old(self).tasks()[0].target,
                    posted_at: old(self).tasks()[0].posted_at,
                    due_at: old(self).tasks()[0].due_at,
                    attempt: (old(self).tasks()[0].attempt + 1) as u64,
                }),
            ),
            final(self).worker(),
    {
        let head = self.queue[0];
        let bumped = DeletionTask {
            target: head.target,
            posted_at: head.posted_at,
            due_at: head.due_at,
            attempt: head.attempt + 1,
        };
        self.queue.set(0, bumped);
        proof {
            let q = self.tasks();
            let prev = old(self).tasks();
            assert(forall|i: int| 1 <= i < q.len() ==> #[trigger] q[i] == prev[i]);
            assert(q[0].due_at == prev[0].due_at);
        }
    }
}

/// The head of a well-ordered queue is due no later than any queued task, and
/// removing it keeps the queue ordered: with no failures, tasks are deleted
/// in non-decreasing due-time order -- first-in, first-out, since every task
/// is due a fixed delay after its own posting time.
pub proof fn lemma_fifo_order(q: Seq<DeletionTask>)
    requires
        due_sorted(q),
        q.len() > 0,
    ensures
        forall|i: int| 0 <= i < q.len() ==> q[0].due_at <= (#[trigger] q[i]).due_at,
        due_sorted(q.drop_first()),
{
    assert forall|i: int| 0 <= i < q.len() implies q[0].due_at <= (#[trigger] q[i]).due_at by {
        if i > 0 {
            assert(q[0].due_at <= q[i].due_at);
        }
    }
    let r = q.drop_first();
    assert forall|i: int, j: int|
        0 <= i < j < r.len() implies (#[trigger] r[i]).due_at <= (#[trigger] r[j]).due_at by {
        assert(r[i] == q[i + 1]);
        assert(r[j] == q[j + 1]);
    }
}

/// A failed deletion is never lost and is retried first: after a failure the
/// same target stands at the head with its attempt count one higher, every
/// other task is untouched, and the head is retried before any task with a
/// later due time.
pub proof fn lemma_retry_front(q: Seq<DeletionTask>, bumped: DeletionTask)
    requires
        due_sorted(q),
        q.len() > 0,
        bumped.target == q[0].target,
        bumped.posted_at == q[0].posted_at,
        bumped.due_at == q[0].due_at,
        bumped.attempt == q[0].attempt + 1,
    ensures
        q.update(0, bumped).len() == q.len(),
        q.update(0, bumped)[0].target == q[0].target,
        forall|i: int| 1 <= i < q.len() ==> #[trigger] q.update(0, bumped)[i] == q[i],
        forall|i: int|
            0 <= i < q.len() ==> q.update(0, bumped)[0].due_at <= (#[trigger] q.update(
                0,
                bumped,
            )[i]).due_at,
        due_sorted(q.update(0, bumped)),
{
    let r = q.update(0, bumped);
    assert forall|i: int| 0 <= i < q.len() implies r[0].due_at <= (#[trigger] r[i]).due_at by {
        if i > 0 {
            assert(r[i] == q[i]);
            assert(q[0].due_at <= q[i].due_at);
        }
    }
    assert forall|i: int, j: int|
        0 <= i < j < r.len() implies (#[trigger] r[i]).due_at <= (#[trigger] r[j]).due_at by {
        if i > 0 {
            assert(r[i] == q[i]);
        }
        assert(r[j] == q[j]);
        if i == 0 {
            assert(q[0].due_at <= q[j].due_at);
        }
    }
}

} // verus!
