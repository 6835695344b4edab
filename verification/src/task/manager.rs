//! The ready queue: the tasks that wait to run, first in, first out.

use vstd::prelude::*;
use std::collections::VecDeque;

verus! {

/// The queue of the tasks that are ready to run, by their identifiers.
pub struct TaskManager {
    pub next_task: usize,
    task_list: VecDeque<usize>,
}

impl View for TaskManager {
    type V = Seq<usize>;

    /// The identifiers in the queue, the next to run first.
    closed spec fn view(&self) -> Seq<usize> {
        self.task_list@
    }
}

/// The ready queue and the running task after a timer interrupt: the
/// running task goes to the back of the queue, and the task at the front
/// runs.
pub open spec fn preempt(queue: Seq<usize>, running: usize) -> (Seq<usize>, usize) {
    (queue.push(running).drop_first(), queue.push(running).first())
}

/// The ready queue and the running task after `n` timer interrupts.
pub open spec fn preempt_n(queue: Seq<usize>, running: usize, n: nat) -> (Seq<usize>, usize)
    decreases n,
{
    if n == 0 {
        (queue, running)
    } else {
        let before = preempt_n(queue, running, (n - 1) as nat);
        preempt(before.0, before.1)
    }
}

/// Round-robin order: after `n` timer interrupts, with `n` at most the
/// length of the queue, the task that was at place `n - 1` of the queue
/// runs, and the queue holds the tasks that were behind it, then the task
/// that ran at first, then the tasks that were before it.
pub proof fn lemma_preempt_n(queue: Seq<usize>, running: usize, n: nat)
    requires
        1 <= n <= queue.len(),
    ensures
        preempt_n(queue, running, n).1 == queue[n - 1],
        preempt_n(queue, running, n).0 == queue.subrange(n as int, queue.len() as int).push(
            running,
        ) + queue.subrange(0, n - 1),
    decreases n,
{
    if n == 1 {
        assert(preempt_n(queue, running, 0) == (queue, running));
        assert(queue.push(running).drop_first() =~= queue.subrange(1, queue.len() as int).push(
            running,
        ) + queue.subrange(0, 0));
    } else {
        lemma_preempt_n(queue, running, (n - 1) as nat);
        let before = preempt_n(queue, running, (n - 1) as nat);
        assert(before.0.push(before.1).first() == queue[n - 1]);
        assert(before.0.push(before.1).drop_first() =~= queue.subrange(
            n as int,
            queue.len() as int,
        ).push(running) + queue.subrange(0, n - 1));
    }
}

/// Fairness of the scheduler: of the tasks that can run, the one that runs
/// and those in the ready queue, each runs within as many timer interrupts
/// as there are such tasks, as long as none of them blocks or exits.
pub proof fn lemma_fairness(queue: Seq<usize>, running: usize, task: usize)
    requires
        task == running || queue.contains(task),
    ensures
        exists|n: nat| n <= queue.len() + 1 && #[trigger] preempt_n(queue, running, n).1 == task,
{
    if task == running {
        assert(preempt_n(queue, running, 0).1 == task);
    } else {
        let i = choose|i: int| 0 <= i < queue.len() && queue[i] == task;
        lemma_preempt_n(queue, running, (i + 1) as nat);
        assert(preempt_n(queue, running, (i + 1) as nat).1 == task);
    }
}

impl TaskManager {
    /// A manager with an empty queue.
    pub fn new() -> (manager: TaskManager)
        ensures
            manager@ == Seq::<usize>::empty(),
    {
        TaskManager { task_list: VecDeque::new(), next_task: 0 }
    }

    /// Takes the task at the front of the queue, if the queue holds one.
    pub fn find_next_ready_task(&mut self) -> (task: Option<usize>)
        ensures
            old(self)@.len() == 0 ==> task is None && final(self)@ == old(self)@,
            old(self)@.len() > 0 ==> task == Some(old(self)@.first()) && final(self)@ == old(
                self,
            )@.drop_first(),
    {
        let task = self.task_list.pop_front();
        proof {
            if old(self)@.len() > 0 {
                assert(self@ =~= old(self)@.drop_first());
            }
        }
        task
    }

    /// Puts a task at the back of the queue.
    pub fn add_task(&mut self, task: usize)
        ensures
            final(self)@ == old(self)@.push(task),
    {
        self.task_list.push_back(task);
    }

    /// Number of tasks in the queue.
    pub fn len(&self) -> (n: usize)
        ensures
            n == self@.len(),
    {
        self.task_list.len()
    }
}

} // verus!
