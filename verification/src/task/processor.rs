//! The processor: the one task that runs, if any.

use vstd::prelude::*;

verus! {

/// The single hart of the machine.
pub struct Processor {
    /// The task that runs in user mode, by its identifier.
    pub cur_task: Option<usize>,
}

impl Processor {
    /// A processor that runs no task.
    pub fn new() -> (processor: Processor)
        ensures
            processor.cur_task is None,
    {
        Processor { cur_task: None }
    }

    /// Takes the running task off the processor.
    pub fn pop_task(&mut self) -> (task: Option<usize>)
        ensures
            task == old(self).cur_task,
            final(self).cur_task is None,
    {
        self.cur_task.take()
    }
}

} // verus!
