//! The simple executor's scheduling queue: tasks run round-robin, oldest
//! first; a task that reports itself pending when polled goes to the back
//! of the queue, a completed one leaves it.  Polling a future is outside
//! work: the surrounding runtime takes the next handle from this queue,
//! polls the task it designates, and requeues it if it was still pending.

use vstd::prelude::*;

verus! {

/// Simple task executor: a first-in, first-out queue of task handles.
pub struct SimpleExecutor {
    pub task_queue: Vec<usize>,
}

impl SimpleExecutor {
    /// Creates an executor with no tasks.
    pub fn new() -> (r: SimpleExecutor)
        ensures
            r.task_queue@ == Seq::<usize>::empty(),
    {
        SimpleExecutor { task_queue: Vec::new() }
    }

    /// Spawns a task: its handle joins the back of the queue.
    pub fn spawn(&mut self, task: usize)
        ensures
            final(self).task_queue@ == old(self).task_queue@.push(task),
    {
        self.task_queue.push(task)
    }

    /// Hands out the task to poll next — the front of the queue, removed
    /// from it — or `None` when no task is waiting.
    pub fn next_task(&mut self) -> (r: Option<usize>)
        ensures
            match r {
                Some(t) => old(self).task_queue@.len() > 0 && t == old(self).task_queue@[0]
                    && final(self).task_queue@ == old(self).task_queue@.drop_first(),
                None => old(self).task_queue@.len() == 0 && *final(self) == *old(self),
            },
    {
        if self.task_queue.len() > 0 {
            let t = self.task_queue.remove(0);
            proof {
                assert(self.task_queue@ =~= old(self).task_queue@.drop_first());
            }
            Some(t)
        } else {
            None
        }
    }

    /// Returns a task that was polled and reported itself pending to the
    /// back of the queue.
    pub fn requeue(&mut self, task: usize)
        ensures
            final(self).task_queue@ == old(self).task_queue@.push(task),
    {
        self.task_queue.push(task)
    }
}

} // verus!
