//! Tasks: identifiers, kernel stacks, the task itself, the ready queue, the
//! processor, and the steps of the scheduler.

use vstd::prelude::*;
use crate::kernel::Kernel;
use crate::task::task::TaskState;
use crate::trap::{restore, Resume};

pub mod kernel_stack;
pub mod manager;
pub mod pid;
pub mod processor;
pub mod task;

verus! {

/// Whether the task `pid` is in `after` what it is in `before`, but for its
/// state.
pub open spec fn kept_but_state(before: &Kernel, after: &Kernel, pid: usize) -> bool {
    let old_task = before.task(pid);
    let new_task = after.task(pid);
    &&& before.has_task(pid)
    &&& after.has_task(pid)
    &&& new_task.pid == old_task.pid
    &&& new_task.name == old_task.name
    &&& new_task.start_time_ms == old_task.start_time_ms
    &&& new_task.kernel_stack == old_task.kernel_stack
    &&& new_task.inner.addr_space == old_task.inner.addr_space
    &&& new_task.inner.trap_ctx_ppn == old_task.inner.trap_ctx_ppn
    &&& new_task.inner.children == old_task.inner.children
    &&& new_task.inner.syscall_times == old_task.inner.syscall_times
    &&& new_task.inner.exit_code == old_task.inner.exit_code
}

/// Whether `after` is `before` once the task `leaving` has left the hands
/// of the trap handler and the task `entering` was put on the processor,
/// where it is running: the memory, the allocators and the other tasks are
/// as they were, and the task that entered has changed its state at most.
pub open spec fn rescheduled(before: &Kernel, after: &Kernel, leaving: usize, entering: usize) -> bool {
    &&& after.mem == before.mem
    &&& after.frames == before.frames
    &&& after.pids == before.pids
    &&& after.stacks == before.stacks
    &&& after.kernel_space == before.kernel_space
    &&& after.apps == before.apps
    &&& after.platform == before.platform
    &&& after.tasks@.len() == before.tasks@.len()
    &&& forall|q: usize|
        q != leaving && q != entering && q < before.tasks@.len() ==> #[trigger] after.tasks@[q as int]
            == before.tasks@[q as int]
    &&& after.has_task(leaving)
    &&& kept_but_state(before, after, entering)
    &&& after.task(entering).inner.state == TaskState::Running
    &&& after.processor.cur_task == Some(entering)
}

/// Puts the ready task `pid`, which the trap handler deals with, at the
/// back of the ready queue.
pub fn add_task(kernel: &mut Kernel, pid: usize)
    requires
        old(kernel).wf_hand(Some(pid)),
        old(kernel).task(pid).inner.state == TaskState::Ready,
    ensures
        final(kernel).wf(),
        final(kernel).manager@ == old(kernel).manager@.push(pid),
        final(kernel).tasks == old(kernel).tasks,
        final(kernel).mem == old(kernel).mem,
        final(kernel).frames == old(kernel).frames,
        final(kernel).pids == old(kernel).pids,
        final(kernel).stacks == old(kernel).stacks,
        final(kernel).kernel_space == old(kernel).kernel_space,
        final(kernel).apps == old(kernel).apps,
        final(kernel).processor == old(kernel).processor,
        final(kernel).platform == old(kernel).platform,
{
    let ghost pre = *kernel;
    kernel.manager.add_task(pid);
    proof {
        pre.lemma_same_tasks(kernel);
        let queue = pre.manager@;
        assert(pre.placed(pid, Some(pid)));
        assert(!queue.contains(pid));
        assert forall|q: usize| #[trigger] kernel.has_task(q) implies kernel.placed(q, None) by {
            assert(pre.has_task(q));
            assert(pre.placed(q, Some(pid)));
            if queue.contains(q) {
                let i = choose|i: int| 0 <= i < queue.len() && queue[i] == q;
                assert(kernel.manager@[i] == q);
            }
            if q == pid {
                assert(kernel.manager@[queue.len() as int] == pid);
            }
            if kernel.manager@.contains(q) && q != pid {
                let i = choose|i: int| 0 <= i < kernel.manager@.len() && kernel.manager@[i] == q;
                assert(queue[i] == q);
            }
        }
        assert forall|i: int| 0 <= i < kernel.manager@.len() implies kernel.has_task(
            #[trigger] kernel.manager@[i],
        ) by {
            if i < queue.len() {
                assert(kernel.manager@[i] == queue[i]);
            }
        }
        assert(kernel.manager@.no_duplicates()) by {
            assert forall|i: int, j: int|
                0 <= i < kernel.manager@.len() && 0 <= j < kernel.manager@.len() && i
                    != j implies kernel.manager@[i] != kernel.manager@[j] by {
                if i < queue.len() && j < queue.len() {
                    assert(queue[i] != queue[j]);
                } else if i < queue.len() {
                    assert(queue.contains(queue[i]));
                } else if j < queue.len() {
                    assert(queue.contains(queue[j]));
                }
            }
        }
        assert forall|p: usize| kernel.has_task(p) == pre.has_task(p) && kernel.task(p) == pre.task(
            p,
        ) by {}
    }
}

/// Takes the task at the front of the ready queue, which is not empty. The
/// task is ready.
pub fn fetch_ready_task(kernel: &mut Kernel) -> (pid: usize)
    requires
        old(kernel).wf(),
        old(kernel).processor.cur_task is None,
        old(kernel).manager@.len() > 0,
    ensures
        pid == old(kernel).manager@.first(),
        final(kernel).manager@ == old(kernel).manager@.drop_first(),
        final(kernel).wf_hand(Some(pid)),
        final(kernel).task(pid).inner.state == TaskState::Ready,
        final(kernel).tasks == old(kernel).tasks,
        final(kernel).mem == old(kernel).mem,
        final(kernel).frames == old(kernel).frames,
        final(kernel).pids == old(kernel).pids,
        final(kernel).stacks == old(kernel).stacks,
        final(kernel).kernel_space == old(kernel).kernel_space,
        final(kernel).apps == old(kernel).apps,
        final(kernel).processor == old(kernel).processor,
        final(kernel).platform == old(kernel).platform,
{
    let ghost pre = *kernel;
    let pid = kernel.manager.find_next_ready_task().unwrap();
    proof {
        pre.lemma_same_tasks(kernel);
        let queue = pre.manager@;
        assert(queue[0] == pid);
        assert(pre.has_task(pid));
        assert(pre.placed(pid, None));
        assert(queue.contains(pid));
        assert forall|q: usize| #[trigger] kernel.has_task(q) implies kernel.placed(q, Some(pid)) by {
            assert(pre.has_task(q));
            assert(pre.placed(q, None));
            if kernel.manager@.contains(q) {
                let i = choose|i: int| 0 <= i < kernel.manager@.len() && kernel.manager@[i] == q;
                assert(queue[i + 1] == q);
                if q == pid {
                    assert(queue[i + 1] == queue[0]);
                }
            }
            if queue.contains(q) && q != pid {
                let i = choose|i: int| 0 <= i < queue.len() && queue[i] == q;
                assert(kernel.manager@[i - 1] == q);
            }
        }
        assert forall|i: int| 0 <= i < kernel.manager@.len() implies kernel.has_task(
            #[trigger] kernel.manager@[i],
        ) by {
            assert(kernel.manager@[i] == queue[i + 1]);
        }
        assert(kernel.manager@.no_duplicates()) by {
            assert forall|i: int, j: int|
                0 <= i < kernel.manager@.len() && 0 <= j < kernel.manager@.len() && i
                    != j implies kernel.manager@[i] != kernel.manager@[j] by {
                assert(queue[i + 1] != queue[j + 1]);
            }
        }
    }
    pid
}

/// Puts the task `pid`, which the trap handler deals with, on the
/// processor, marks it running, and prepares its return to user mode.
pub fn run_task(kernel: &mut Kernel, pid: usize) -> (resume: Resume)
    requires
        old(kernel).wf_hand(Some(pid)),
        old(kernel).task(pid).inner.state != TaskState::Exited,
    ensures
        final(kernel).wf(),
        final(kernel).processor.cur_task == Some(pid),
        final(kernel).task(pid).inner.state == TaskState::Running,
        final(kernel).manager == old(kernel).manager,
        old(kernel).same_but_task(
            &(Kernel { processor: old(kernel).processor, ..*final(kernel) }),
            pid,
        ),
        final(kernel).task(pid).inner.exit_code == old(kernel).task(pid).inner.exit_code,
        final(kernel).task(pid).inner.syscall_times == old(kernel).task(pid).inner.syscall_times,
        final(kernel).task(pid).inner.children == old(kernel).task(pid).inner.children,
        resume.pid == pid,
        resume.user_satp == final(kernel).task(pid).inner.addr_space.spec_token(),
        resume.trap_ctx == crate::config::TRAP_CONTEXT,
        resume.stvec == crate::config::TRAMPOLINE,
        resume.restore_va == crate::config::TRAMPOLINE + crate::mm::address::page_offset(
            final(kernel).platform.restore,
        ),
{
    let ghost pre = *kernel;
    kernel.set_task_state(pid, TaskState::Running);
    let ghost mid = *kernel;
    kernel.processor.cur_task = Some(pid);
    proof {
        pre.lemma_bookkeeping(&mid, pid);
        pre.lemma_family_kept(&mid, pid);
        mid.lemma_same_tasks(kernel);
        assert(pre.placed(pid, Some(pid)));
        assert forall|q: usize| #[trigger] kernel.has_task(q) implies kernel.placed(q, None) by {
            assert(pre.has_task(q));
            assert(pre.placed(q, Some(pid)));
            if q != pid {
                pre.lemma_others_placed(&mid, pid, Some(pid), q);
            }
        }
    }
    restore(kernel, pid)
}

/// Runs the task at the front of the ready queue, which is not empty.
pub fn run_next_task(kernel: &mut Kernel) -> (resume: Resume)
    requires
        old(kernel).wf(),
        old(kernel).processor.cur_task is None,
        old(kernel).manager@.len() > 0,
    ensures
        final(kernel).wf(),
        resume.pid == old(kernel).manager@.first(),
        rescheduled(old(kernel), final(kernel), resume.pid, resume.pid),
        final(kernel).processor.cur_task == Some(resume.pid),
        final(kernel).manager@ == old(kernel).manager@.drop_first(),
        final(kernel).task(resume.pid).inner.state == TaskState::Running,
        old(kernel).same_but_task(
            &(Kernel {
                processor: old(kernel).processor,
                manager: old(kernel).manager,
                ..*final(kernel)
            }),
            resume.pid,
        ),
        resume.user_satp == final(kernel).task(resume.pid).inner.addr_space.spec_token(),
        resume.trap_ctx == crate::config::TRAP_CONTEXT,
        resume.stvec == crate::config::TRAMPOLINE,
        resume.restore_va == crate::config::TRAMPOLINE + crate::mm::address::page_offset(
            final(kernel).platform.restore,
        ),
{
    let ghost pre = *kernel;
    let task = fetch_ready_task(kernel);
    let resume = run_task(kernel, task);
    proof {
        assert(pre.manager@[0] == task);
        assert(pre.has_task(task));
    }
    resume
}

/// Puts the ready task `previous`, which the trap handler deals with, at
/// the back of the ready queue, and runs the task at the front: the next
/// in line, or `previous` itself when the queue was empty.
pub fn switch_task(kernel: &mut Kernel, previous: usize) -> (resume: Resume)
    requires
        old(kernel).wf_hand(Some(previous)),
        old(kernel).task(previous).inner.state == TaskState::Ready,
    ensures
        final(kernel).wf(),
        resume.pid == old(kernel).manager@.push(previous).first(),
        rescheduled(old(kernel), final(kernel), previous, resume.pid),
        kept_but_state(old(kernel), final(kernel), previous),
        resume.pid != previous ==> final(kernel).task(previous).inner.state == TaskState::Ready,
        final(kernel).processor.cur_task == Some(resume.pid),
        final(kernel).manager@ == old(kernel).manager@.push(previous).drop_first(),
        final(kernel).task(resume.pid).inner.state == TaskState::Running,
        old(kernel).same_but_task(
            &(Kernel {
                processor: old(kernel).processor,
                manager: old(kernel).manager,
                ..*final(kernel)
            }),
            resume.pid,
        ),
        resume.user_satp == final(kernel).task(resume.pid).inner.addr_space.spec_token(),
        resume.trap_ctx == crate::config::TRAP_CONTEXT,
        resume.stvec == crate::config::TRAMPOLINE,
        resume.restore_va == crate::config::TRAMPOLINE + crate::mm::address::page_offset(
            final(kernel).platform.restore,
        ),
{
    let ghost pre = *kernel;
    add_task(kernel, previous);
    let ghost mid = *kernel;
    let resume = run_next_task(kernel);
    proof {
        assert(pre.has_task(previous));
        if resume.pid != previous {
            assert(kernel.tasks@[previous as int] == mid.tasks@[previous as int]);
        }
    }
    resume
}

/// Takes the running task off the processor, for the trap handler to deal
/// with.
pub fn pop_task(kernel: &mut Kernel) -> (task: Option<usize>)
    requires
        old(kernel).wf(),
    ensures
        task == old(kernel).processor.cur_task,
        final(kernel).processor.cur_task is None,
        final(kernel).wf_hand(task),
        task is Some ==> final(kernel).task(task->0).inner.state == TaskState::Running,
        final(kernel).tasks == old(kernel).tasks,
        final(kernel).manager == old(kernel).manager,
        final(kernel).mem == old(kernel).mem,
        final(kernel).frames == old(kernel).frames,
        final(kernel).pids == old(kernel).pids,
        final(kernel).stacks == old(kernel).stacks,
        final(kernel).kernel_space == old(kernel).kernel_space,
        final(kernel).apps == old(kernel).apps,
        final(kernel).platform == old(kernel).platform,
{
    let ghost pre = *kernel;
    let task = kernel.processor.pop_task();
    proof {
        pre.lemma_same_tasks(kernel);
        assert forall|q: usize| #[trigger] kernel.has_task(q) implies kernel.placed(q, task) by {
            assert(pre.has_task(q));
            assert(pre.placed(q, None));
        }
        if task is Some {
            assert(pre.has_task(task->0));
            assert(pre.placed(task->0, None));
        }
    }
    task
}

} // verus!
