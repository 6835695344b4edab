//! The state of the kernel: the memory, the allocators, the kernel's
//! address space, the table of tasks, the ready queue and the processor.

use vstd::prelude::*;
use crate::loader::AppCatalog;
use crate::mm::frame_allocator::StackFrameAllocator;
use crate::mm::memory::PhysMemory;
use crate::mm::memory_set::MemorySet;
use crate::task::kernel_stack::KernelStackPool;
use crate::task::manager::TaskManager;
use crate::task::pid::PidAllocator;
use crate::task::processor::Processor;
use crate::task::task::{Task, TaskInner, TaskState};
use crate::trap::context::TrapContext;

verus! {

/// Addresses in the kernel image that the trap path needs.
#[derive(Clone, Copy, Debug, PartialEq, Eq, Structural)]
pub struct Platform {
    /// Virtual address of the trap handler.
    pub trap_handler: u64,
    /// Address of the code that returns to user mode, which lies in the
    /// trampoline page.
    pub restore: u64,
}

/// The kernel.
pub struct Kernel {
    pub mem: PhysMemory,
    pub frames: StackFrameAllocator,
    pub pids: PidAllocator,
    pub stacks: KernelStackPool,
    pub kernel_space: MemorySet,
    pub apps: AppCatalog,
    /// The tasks that are alive or wait to be reaped, each at the index
    /// of its identifier.
    pub tasks: Vec<Option<Task>>,
    pub manager: TaskManager,
    pub processor: Processor,
    pub platform: Platform,
}

impl Kernel {
    /// Whether the table holds a task with the identifier `pid`.
    pub open spec fn has_task(&self, pid: usize) -> bool {
        pid < self.tasks@.len() && self.tasks@[pid as int] is Some
    }

    /// The task with the identifier `pid`.
    pub open spec fn task(&self, pid: usize) -> Task {
        self.tasks@[pid as int]->0
    }

    /// Whether the task `pid` owns the frame `ppn`.
    pub open spec fn owns(&self, pid: usize, ppn: u64) -> bool {
        self.task(pid).inner.addr_space.owns(ppn)
    }

    /// The memory, the allocators, the catalog and the kernel's address
    /// space are well formed.
    pub open spec fn resources_ok(&self) -> bool {
        &&& self.mem.wf()
        &&& self.frames@.wf()
        &&& self.frames.within(&self.mem)
        &&& self.pids@.wf()
        &&& self.stacks.wf()
        &&& self.apps.wf()
        &&& self.kernel_space.wf(&self.mem)
        &&& self.kernel_space.owned_in(self.frames@)
    }

    /// What holds of the task `pid` of the table: it knows its identifier,
    /// is well formed, owns frames that are handed out, maps the kernel's
    /// trampoline, and holds its kernel stack.
    pub open spec fn task_ok(&self, pid: usize) -> bool {
        let task = self.task(pid);
        &&& task.pid.0 == pid
        &&& task.wf(&self.mem)
        &&& task.inner.addr_space.owned_in(self.frames@)
        &&& task.inner.addr_space.trampoline() == self.kernel_space.trampoline()
        &&& self.pids@.is_allocated(pid)
        &&& self.stacks.has(pid)
        &&& task.kernel_stack == self.stacks.range_of(self.stacks.slot_of(pid))
    }

    /// The table holds exactly the tasks whose identifiers and kernel
    /// stacks are handed out, and each of them is in order.
    pub open spec fn table_ok(&self) -> bool {
        &&& self.tasks@.len() == self.pids@.current
        &&& forall|pid: usize| #[trigger] self.has_task(pid) ==> self.task_ok(pid)
        &&& forall|pid: usize| #[trigger] self.pids@.is_allocated(pid) ==> self.has_task(pid)
        &&& forall|pid: usize| #[trigger] self.stacks.has(pid) ==> self.has_task(pid)
    }

    /// No frame has two owners among the tasks and the kernel's address space.
    pub open spec fn frames_ok(&self) -> bool {
        &&& forall|a: usize, b: usize, f: u64|
            self.has_task(a) && self.has_task(b) && a != b && #[trigger] self.owns(a, f)
                ==> !#[trigger] self.owns(b, f)
        &&& forall|a: usize, f: u64|
            self.has_task(a) && #[trigger] self.owns(a, f) ==> !self.kernel_space.owns(f)
    }

    /// Whether the task `pid` is where its state says, when the task
    /// `hand`, if any, is the one that the trap handler deals with: a ready
    /// task waits in the queue or is in hand, a running task is on the
    /// processor or in hand, and a task that exited is nowhere.
    pub open spec fn placed(&self, pid: usize, hand: Option<usize>) -> bool {
        let queued = self.manager@.contains(pid);
        let current = self.processor.cur_task == Some(pid);
        let held = hand == Some(pid);
        match self.task(pid).inner.state {
            TaskState::UnInit => false,
            TaskState::Ready => !current && (queued != held),
            TaskState::Running => !queued && (current != held),
            TaskState::Exited => !queued && !current && !held,
        }
    }

    /// Every task is in its place, the queue names tasks of the table and
    /// none twice, and at most one task is on the processor or in hand.
    pub open spec fn sched_ok(&self, hand: Option<usize>) -> bool {
        &&& forall|pid: usize| #[trigger] self.has_task(pid) ==> self.placed(pid, hand)
        &&& self.manager@.no_duplicates()
        &&& forall|i: int| 0 <= i < self.manager@.len() ==> self.has_task(#[trigger] self.manager@[i])
        &&& self.processor.cur_task is Some ==> hand is None && self.has_task(
            self.processor.cur_task->0,
        )
        &&& hand is Some ==> self.has_task(hand->0)
    }

    /// The children of every task are tasks of the table, none is its own
    /// child, and no task is a child twice.
    pub open spec fn family_ok(&self) -> bool {
        &&& forall|p: usize, i: int|
            self.has_task(p) && 0 <= i < self.task(p).inner.children@.len() ==> {
                let c = #[trigger] self.task(p).inner.children@[i];
                self.has_task(c) && c != p
            }
        &&& forall|p: usize| #[trigger]
            self.has_task(p) ==> self.task(p).inner.children@.no_duplicates()
        &&& forall|p: usize, q: usize, i: int, j: int|
            self.has_task(p) && self.has_task(q) && p != q && 0 <= i < self.task(
                p,
            ).inner.children@.len() && 0 <= j < self.task(q).inner.children@.len()
                ==> #[trigger] self.task(p).inner.children@[i] != #[trigger] self.task(
                q,
            ).inner.children@[j]
    }

    /// The invariant of the kernel while the trap handler deals with the
    /// task `hand`, if any.
    pub open spec fn wf_hand(&self, hand: Option<usize>) -> bool {
        &&& self.resources_ok()
        &&& self.table_ok()
        &&& self.frames_ok()
        &&& self.sched_ok(hand)
        &&& self.family_ok()
    }

    /// The invariant of the kernel between traps.
    pub open spec fn wf(&self) -> bool {
        self.wf_hand(None)
    }

    /// Whether `other` is this kernel but for the task `pid`, which keeps
    /// its identifier, its kernel stack, its address space and its trap
    /// context.
    pub open spec fn same_but_task(&self, other: &Kernel, pid: usize) -> bool {
        &&& other.mem == self.mem
        &&& other.frames == self.frames
        &&& other.pids == self.pids
        &&& other.stacks == self.stacks
        &&& other.kernel_space == self.kernel_space
        &&& other.apps == self.apps
        &&& other.manager == self.manager
        &&& other.processor == self.processor
        &&& other.platform == self.platform
        &&& other.tasks@.len() == self.tasks@.len()
        &&& forall|q: usize| q != pid && q < self.tasks@.len() ==> #[trigger] other.tasks@[q as int]
            == self.tasks@[q as int]
        &&& self.has_task(pid)
        &&& other.has_task(pid)
        &&& other.task(pid).pid == self.task(pid).pid
        &&& other.task(pid).name == self.task(pid).name
        &&& other.task(pid).start_time_ms == self.task(pid).start_time_ms
        &&& other.task(pid).kernel_stack == self.task(pid).kernel_stack
        &&& other.task(pid).inner.addr_space == self.task(pid).inner.addr_space
        &&& other.task(pid).inner.trap_ctx_ppn == self.task(pid).inner.trap_ctx_ppn
    }

    /// A change of the state, the exit code, the counters or the children
    /// of one task leaves the resources, the table and the ownership of
    /// frames in order.
    pub proof fn lemma_bookkeeping(&self, other: &Kernel, pid: usize)
        requires
            self.resources_ok(),
            self.table_ok(),
            self.frames_ok(),
            self.same_but_task(other, pid),
            other.task(pid).inner.state != TaskState::UnInit,
        ensures
            other.resources_ok(),
            other.table_ok(),
            other.frames_ok(),
    {
        assert forall|q: usize| #[trigger] other.has_task(q) implies other.task_ok(q) by {
            assert(self.has_task(q));
            assert(self.task_ok(q));
            if q != pid {
                assert(other.tasks@[q as int] == self.tasks@[q as int]);
            }
        }
        assert forall|q: usize| #[trigger] other.pids@.is_allocated(q) implies other.has_task(q) by {
            assert(self.has_task(q));
            if q != pid {
                assert(other.tasks@[q as int] == self.tasks@[q as int]);
            }
        }
        assert forall|q: usize| #[trigger] other.stacks.has(q) implies other.has_task(q) by {
            assert(self.has_task(q));
            if q != pid {
                assert(other.tasks@[q as int] == self.tasks@[q as int]);
            }
        }
        assert forall|a: usize, b: usize, f: u64|
            other.has_task(a) && other.has_task(b) && a != b && #[trigger] other.owns(a, f)
            implies !#[trigger] other.owns(b, f) by {
            if a != pid {
                assert(other.tasks@[a as int] == self.tasks@[a as int]);
            }
            if b != pid {
                assert(other.tasks@[b as int] == self.tasks@[b as int]);
            }
            assert(self.has_task(a) && self.has_task(b));
            assert(self.owns(a, f));
            assert(!self.owns(b, f));
        }
        assert forall|a: usize, f: u64| other.has_task(a) && #[trigger] other.owns(a, f)
            implies !other.kernel_space.owns(f) by {
            if a != pid {
                assert(other.tasks@[a as int] == self.tasks@[a as int]);
            }
            assert(self.has_task(a));
            assert(self.owns(a, f));
        }
    }

    /// A kernel that differs at most in the ready queue and the processor
    /// has its resources, its table, the ownership of frames and the
    /// families in order as well.
    pub proof fn lemma_same_tasks(&self, other: &Kernel)
        requires
            self.resources_ok(),
            self.table_ok(),
            self.frames_ok(),
            self.family_ok(),
            other.mem == self.mem,
            other.frames == self.frames,
            other.pids == self.pids,
            other.stacks == self.stacks,
            other.kernel_space == self.kernel_space,
            other.apps == self.apps,
            other.tasks == self.tasks,
        ensures
            other.resources_ok(),
            other.table_ok(),
            other.frames_ok(),
            other.family_ok(),
            forall|q: usize| other.has_task(q) == self.has_task(q),
            forall|q: usize| other.task(q) == self.task(q),
    {
        assert forall|q: usize| other.has_task(q) == self.has_task(q) && other.task(q) == self.task(
            q,
        ) by {}
        assert forall|q: usize| #[trigger] other.has_task(q) implies other.task_ok(q) by {
            assert(self.has_task(q));
            assert(self.task_ok(q));
        }
        assert forall|q: usize| #[trigger] other.pids@.is_allocated(q) implies other.has_task(q) by {
            assert(self.has_task(q));
        }
        assert forall|q: usize| #[trigger] other.stacks.has(q) implies other.has_task(q) by {
            assert(self.has_task(q));
        }
        assert forall|a: usize, b: usize, f: u64|
            other.has_task(a) && other.has_task(b) && a != b && #[trigger] other.owns(a, f)
            implies !#[trigger] other.owns(b, f) by {
            assert(self.owns(a, f));
            assert(!self.owns(b, f));
        }
        assert forall|a: usize, f: u64| other.has_task(a) && #[trigger] other.owns(a, f)
            implies !other.kernel_space.owns(f) by {
            assert(self.owns(a, f));
        }
        assert forall|p: usize, i: int|
            other.has_task(p) && 0 <= i < other.task(p).inner.children@.len() implies {
            let c = #[trigger] other.task(p).inner.children@[i];
            other.has_task(c) && c != p
        } by {
            let c = self.task(p).inner.children@[i];
            assert(self.has_task(c) && c != p);
        }
        assert forall|p: usize| #[trigger] other.has_task(p) implies other.task(
            p,
        ).inner.children@.no_duplicates() by {
            assert(self.has_task(p));
        }
        assert forall|p: usize, q: usize, i: int, j: int|
            other.has_task(p) && other.has_task(q) && p != q && 0 <= i < other.task(
                p,
            ).inner.children@.len() && 0 <= j < other.task(q).inner.children@.len()
            implies #[trigger] other.task(p).inner.children@[i] != #[trigger] other.task(
            q,
        ).inner.children@[j] by {
            assert(self.task(p).inner.children@[i] != self.task(q).inner.children@[j]);
        }
    }

    /// Whether `other` is this kernel after a step on the memory and the
    /// address space of the task `pid` alone: the other tasks, the kernel's
    /// address space, and the frames that they own are as they were, and
    /// what the task owns anew was free before.
    pub open spec fn moved_for(&self, other: &Kernel, pid: usize) -> bool {
        &&& other.mem.wf()
        &&& self.mem.same_extent(&other.mem)
        &&& other.frames@.wf()
        &&& other.frames.within(&other.mem)
        &&& other.pids == self.pids
        &&& other.stacks == self.stacks
        &&& other.apps == self.apps
        &&& other.kernel_space == self.kernel_space
        &&& other.manager == self.manager
        &&& other.processor == self.processor
        &&& other.platform == self.platform
        &&& other.tasks@.len() == self.tasks@.len()
        &&& forall|q: usize| q != pid && q < self.tasks@.len() ==> #[trigger] other.tasks@[q as int]
            == self.tasks@[q as int]
        &&& forall|f: u64|
            self.mem.contains(f) && self.frames@.is_allocated(f) && !self.owns(pid, f)
                ==> #[trigger] other.mem.frame(f) == self.mem.frame(f)
        &&& forall|f: u64|
            self.frames@.is_allocated(f) && !self.owns(pid, f) ==> #[trigger] other.frames@.is_allocated(
                f,
            )
        &&& self.has_task(pid)
        &&& other.has_task(pid)
        &&& other.task(pid).pid == self.task(pid).pid
        &&& other.task(pid).kernel_stack == self.task(pid).kernel_stack
        &&& other.task(pid).wf(&other.mem)
        &&& other.task(pid).inner.addr_space.owned_in(other.frames@)
        &&& other.task(pid).inner.addr_space.trampoline() == self.task(
            pid,
        ).inner.addr_space.trampoline()
        &&& forall|f: u64| #[trigger]
            other.owns(pid, f) ==> self.owns(pid, f) || !self.frames@.is_allocated(f)
    }

    /// A step on the memory and the address space of one task leaves the
    /// resources, the table and the ownership of frames in order.
    pub proof fn lemma_moved(&self, other: &Kernel, pid: usize)
        requires
            self.resources_ok(),
            self.table_ok(),
            self.frames_ok(),
            self.moved_for(other, pid),
        ensures
            other.resources_ok(),
            other.table_ok(),
            other.frames_ok(),
    {
        assert(self.task_ok(pid));
        self.kernel_space.lemma_wf(&self.mem);
        assert forall|t: u64| #[trigger]
            self.kernel_space.table().nodes().contains(t) implies other.mem.frame(t) == self.mem.frame(
            t,
        ) by {
            assert(self.kernel_space.owns(t));
            assert(self.frames@.is_allocated(t));
            if self.owns(pid, t) {
                assert(!self.kernel_space.owns(t));
            }
        }
        self.kernel_space.lemma_frame_invariance(&self.mem, &other.mem);
        assert forall|p: u64| #[trigger] other.kernel_space.owns(p) implies other.frames@.is_allocated(
            p,
        ) by {
            assert(self.kernel_space.owns(p));
            assert(self.frames@.is_allocated(p));
            if self.owns(pid, p) {
                assert(!self.kernel_space.owns(p));
            }
        }
        assert forall|q: usize| #[trigger] other.has_task(q) implies other.task_ok(q) by {
            if q != pid {
                assert(other.tasks@[q as int] == self.tasks@[q as int]);
                assert(self.has_task(q));
                assert(self.task_ok(q));
                let space = self.task(q).inner.addr_space;
                space.lemma_wf(&self.mem);
                assert forall|t: u64| #[trigger] space.table().nodes().contains(t)
                    implies other.mem.frame(t) == self.mem.frame(t) by {
                    assert(space.owns(t));
                    assert(self.owns(q, t));
                    assert(self.frames@.is_allocated(t));
                    if self.owns(pid, t) {
                        assert(!self.owns(q, t));
                    }
                }
                self.task(q).inner.lemma_frame_invariance(&self.mem, &other.mem);
                assert forall|p: u64| #[trigger] space.owns(p) implies other.frames@.is_allocated(
                    p,
                ) by {
                    assert(self.owns(q, p));
                    assert(self.frames@.is_allocated(p));
                    if self.owns(pid, p) {
                        assert(!self.owns(q, p));
                    }
                }
            }
        }
        assert forall|q: usize| #[trigger] other.pids@.is_allocated(q) implies other.has_task(q) by {
            assert(self.has_task(q));
            if q != pid {
                assert(other.tasks@[q as int] == self.tasks@[q as int]);
            }
        }
        assert forall|q: usize| #[trigger] other.stacks.has(q) implies other.has_task(q) by {
            assert(self.has_task(q));
            if q != pid {
                assert(other.tasks@[q as int] == self.tasks@[q as int]);
            }
        }
        assert forall|a: usize, b: usize, f: u64|
            other.has_task(a) && other.has_task(b) && a != b && #[trigger] other.owns(a, f)
            implies !#[trigger] other.owns(b, f) by {
            if a != pid {
                assert(other.tasks@[a as int] == self.tasks@[a as int]);
                assert(self.has_task(a));
                assert(self.owns(a, f));
                assert(self.task_ok(a));
                assert(self.task(a).inner.addr_space.owns(f));
                assert(self.frames@.is_allocated(f));
            }
            if b != pid {
                assert(other.tasks@[b as int] == self.tasks@[b as int]);
                assert(self.has_task(b));
                if other.owns(b, f) {
                    assert(self.owns(b, f));
                    assert(self.task_ok(b));
                    assert(self.task(b).inner.addr_space.owns(f));
                    assert(self.frames@.is_allocated(f));
                    if a == pid {
                        assert(self.owns(pid, f));
                        assert(!self.owns(b, f));
                    } else {
                        assert(!self.owns(b, f));
                    }
                }
            } else {
                if other.owns(pid, f) {
                    assert(self.owns(pid, f));
                    assert(!self.owns(pid, f));
                }
            }
        }
        assert forall|a: usize, f: u64| other.has_task(a) && #[trigger] other.owns(a, f)
            implies !other.kernel_space.owns(f) by {
            if a != pid {
                assert(other.tasks@[a as int] == self.tasks@[a as int]);
                assert(self.has_task(a));
                assert(self.owns(a, f));
            } else if self.kernel_space.owns(f) {
                assert(self.frames@.is_allocated(f));
                assert(self.owns(pid, f));
            }
        }
    }

    /// A step on the memory and the address space of one task that keeps
    /// its state and its children keeps every task in its place and the
    /// families in order.
    pub proof fn lemma_moved_places(&self, other: &Kernel, pid: usize, hand: Option<usize>)
        requires
            self.sched_ok(hand),
            self.family_ok(),
            self.moved_for(other, pid),
            other.task(pid).inner.state == self.task(pid).inner.state,
            other.task(pid).inner.children@ == self.task(pid).inner.children@,
        ensures
            other.sched_ok(hand),
            other.family_ok(),
    {
        assert forall|p: usize| other.has_task(p) == self.has_task(p) by {
            if p != pid && p < self.tasks@.len() {
                assert(other.tasks@[p as int] == self.tasks@[p as int]);
            }
        }
        assert forall|p: usize| other.has_task(p) implies other.task(p).inner.children@ == self.task(
            p,
        ).inner.children@ && other.task(p).inner.state == self.task(p).inner.state by {
            if p != pid {
                assert(other.tasks@[p as int] == self.tasks@[p as int]);
            }
        }
        assert forall|q: usize| #[trigger] other.has_task(q) implies other.placed(q, hand) by {
            assert(self.has_task(q));
            assert(self.placed(q, hand));
        }
        assert forall|i: int| 0 <= i < other.manager@.len() implies other.has_task(
            #[trigger] other.manager@[i],
        ) by {
            assert(self.has_task(self.manager@[i]));
        }
        assert forall|p: usize, i: int|
            other.has_task(p) && 0 <= i < other.task(p).inner.children@.len() implies {
            let c = #[trigger] other.task(p).inner.children@[i];
            other.has_task(c) && c != p
        } by {
            let c = self.task(p).inner.children@[i];
            assert(self.has_task(c) && c != p);
        }
        assert forall|p: usize| #[trigger] other.has_task(p) implies other.task(
            p,
        ).inner.children@.no_duplicates() by {
            assert(self.has_task(p));
        }
        assert forall|p: usize, q: usize, i: int, j: int|
            other.has_task(p) && other.has_task(q) && p != q && 0 <= i < other.task(
                p,
            ).inner.children@.len() && 0 <= j < other.task(q).inner.children@.len()
            implies #[trigger] other.task(p).inner.children@[i] != #[trigger] other.task(
            q,
        ).inner.children@[j] by {
            assert(self.task(p).inner.children@[i] != self.task(q).inner.children@[j]);
        }
    }

    /// Whether `other` has the state of this kernel: the same parts, and
    /// the same tasks in the table.
    pub open spec fn same_state(&self, other: &Kernel) -> bool {
        &&& other.mem == self.mem
        &&& other.frames == self.frames
        &&& other.pids == self.pids
        &&& other.stacks == self.stacks
        &&& other.kernel_space == self.kernel_space
        &&& other.apps == self.apps
        &&& other.manager == self.manager
        &&& other.processor == self.processor
        &&& other.platform == self.platform
        &&& other.tasks@ == self.tasks@
    }

    /// A kernel with the same state is in order as well.
    pub proof fn lemma_same_state(&self, other: &Kernel, hand: Option<usize>)
        requires
            self.wf_hand(hand),
            self.same_state(other),
        ensures
            other.wf_hand(hand),
    {
        assert forall|q: usize| other.has_task(q) == self.has_task(q) && other.task(q) == self.task(
            q,
        ) by {}
        assert forall|q: usize| #[trigger] other.has_task(q) implies other.task_ok(q)
            && other.placed(q, hand) by {
            assert(self.has_task(q));
            assert(self.task_ok(q));
            assert(self.placed(q, hand));
        }
        assert forall|q: usize| #[trigger] other.pids@.is_allocated(q) implies other.has_task(q) by {
            assert(self.has_task(q));
        }
        assert forall|q: usize| #[trigger] other.stacks.has(q) implies other.has_task(q) by {
            assert(self.has_task(q));
        }
        assert forall|a: usize, b: usize, f: u64|
            other.has_task(a) && other.has_task(b) && a != b && #[trigger] other.owns(a, f)
            implies !#[trigger] other.owns(b, f) by {
            assert(self.owns(a, f));
            assert(!self.owns(b, f));
        }
        assert forall|a: usize, f: u64| other.has_task(a) && #[trigger] other.owns(a, f)
            implies !other.kernel_space.owns(f) by {
            assert(self.owns(a, f));
        }
        assert forall|i: int| 0 <= i < other.manager@.len() implies other.has_task(
            #[trigger] other.manager@[i],
        ) by {
            assert(self.has_task(self.manager@[i]));
        }
        assert forall|p: usize, i: int|
            other.has_task(p) && 0 <= i < other.task(p).inner.children@.len() implies {
            let c = #[trigger] other.task(p).inner.children@[i];
            other.has_task(c) && c != p
        } by {
            let c = self.task(p).inner.children@[i];
            assert(self.has_task(c) && c != p);
        }
        assert forall|p: usize| #[trigger] other.has_task(p) implies other.task(
            p,
        ).inner.children@.no_duplicates() by {
            assert(self.has_task(p));
        }
        assert forall|p: usize, q: usize, i: int, j: int|
            other.has_task(p) && other.has_task(q) && p != q && 0 <= i < other.task(
                p,
            ).inner.children@.len() && 0 <= j < other.task(q).inner.children@.len()
            implies #[trigger] other.task(p).inner.children@[i] != #[trigger] other.task(
            q,
        ).inner.children@[j] by {
            assert(self.task(p).inner.children@[i] != self.task(q).inner.children@[j]);
        }
    }

    /// Whether `other` is this kernel but for the memory, the frame
    /// allocator and the address space of the task `pid`.
    pub open spec fn same_but_space(&self, other: &Kernel, pid: usize) -> bool {
        &&& other.pids == self.pids
        &&& other.stacks == self.stacks
        &&& other.apps == self.apps
        &&& other.kernel_space == self.kernel_space
        &&& other.manager == self.manager
        &&& other.processor == self.processor
        &&& other.platform == self.platform
        &&& other.tasks@.len() == self.tasks@.len()
        &&& forall|q: usize| q != pid && q < self.tasks@.len() ==> #[trigger] other.tasks@[q as int]
            == self.tasks@[q as int]
        &&& self.has_task(pid)
        &&& other.has_task(pid)
        &&& other.task(pid).pid == self.task(pid).pid
        &&& other.task(pid).name == self.task(pid).name
        &&& other.task(pid).start_time_ms == self.task(pid).start_time_ms
        &&& other.task(pid).kernel_stack == self.task(pid).kernel_stack
        &&& other.task(pid).inner.state == self.task(pid).inner.state
        &&& other.task(pid).inner.children == self.task(pid).inner.children
        &&& other.task(pid).inner.exit_code == self.task(pid).inner.exit_code
        &&& other.task(pid).inner.syscall_times == self.task(pid).inner.syscall_times
        &&& other.task(pid).inner.trap_ctx_ppn == self.task(pid).inner.trap_ctx_ppn
    }

    /// Inserting a framed area into the address space of a task leaves the
    /// kernel in order.
    pub proof fn lemma_space_grew(
        &self,
        other: &Kernel,
        pid: usize,
        hand: Option<usize>,
        start: u64,
        end: u64,
        perm: u8,
    )
        requires
            self.wf_hand(hand),
            self.same_but_space(other, pid),
            other.frames.within(&other.mem),
            self.task(pid).inner.addr_space.inserted(
                &self.mem,
                self.frames@,
                &other.task(pid).inner.addr_space,
                &other.mem,
                other.frames@,
                start,
                end,
                perm,
            ),
        ensures
            other.wf_hand(hand),
            self.moved_for(other, pid),
    {
        let space0 = self.task(pid).inner.addr_space;
        let space1 = other.task(pid).inner.addr_space;
        let t = self.task(pid).inner.trap_ctx_ppn;
        let tv = crate::mm::memory_set::TRAP_CONTEXT_VPN;
        assert(self.task_ok(pid));
        space0.lemma_wf(&self.mem);
        space1.lemma_wf(&other.mem);
        assert(space0.table().is_mapped(&self.mem, tv));
        assert(!(start <= tv < end)) by {
            if start <= tv < end {
                assert(space0.any_mapped(&self.mem, start, end));
            }
        }
        assert(space1.mapping(&other.mem, tv) == space0.mapping(&self.mem, tv));
        assert(space1.framed_at(tv)) by {
            let i = choose|i: int|
                0 <= i < space0.areas().len() && #[trigger] space0.areas()[i].contains_vpn(tv)
                    && space0.areas()[i].map_type == crate::mm::memory_set::MapType::Framed;
            assert(space1.areas().drop_last()[i] == space0.areas()[i]);
            assert(space1.areas()[i].contains_vpn(tv));
        }
        assert forall|f: u64|
            self.mem.contains(f) && self.frames@.is_allocated(f) && !self.owns(pid, f)
            implies #[trigger] other.mem.frame(f) == self.mem.frame(f) by {
            if space1.owns(f) {
                assert(space0.owns(f) || !self.frames@.is_allocated(f));
            }
        }
        self.lemma_moved(other, pid);
        self.lemma_moved_places(other, pid, hand);
    }

    /// Removing a user area from the address space of a task leaves the
    /// kernel in order.
    pub proof fn lemma_space_shrank(&self, other: &Kernel, pid: usize, hand: Option<usize>, idx: int)
        requires
            self.wf_hand(hand),
            self.same_but_space(other, pid),
            other.frames.within(&other.mem),
            0 <= idx < self.task(pid).inner.addr_space.areas().len(),
            crate::mm::page_table::has_flag(
                self.task(pid).inner.addr_space.areas()[idx].map_perm,
                crate::mm::memory_set::PERM_U,
            ),
            self.task(pid).inner.addr_space.removed(
                &self.mem,
                self.frames@,
                &other.task(pid).inner.addr_space,
                &other.mem,
                other.frames@,
                idx,
            ),
        ensures
            other.wf_hand(hand),
            self.moved_for(other, pid),
    {
        let space0 = self.task(pid).inner.addr_space;
        let space1 = other.task(pid).inner.addr_space;
        let area = space0.areas()[idx];
        let tv = crate::mm::memory_set::TRAP_CONTEXT_VPN;
        assert(self.task_ok(pid));
        space0.lemma_wf(&self.mem);
        space1.lemma_wf(&other.mem);
        assert(area.wf());
        assert(!area.contains_vpn(tv)) by {
            if area.contains_vpn(tv) {
                assert(space0.mapping(&self.mem, tv) == Some(area.entry(tv)));
                assert(area.map_type == crate::mm::memory_set::MapType::Framed);
                let p = area.data_frames@[tv - area.start_vpn];
                assert(space0.data_frames().contains(area.data_frames@[tv - area.start_vpn]));
                assert(space0.owns(p));
                self.mem.lemma_frame_len(p);
                crate::mm::page_table::PageTableEntry::lemma_fields(
                    p,
                    crate::mm::page_table::with_valid(area.map_perm),
                );
            }
        }
        assert(space1.mapping(&other.mem, tv) == space0.mapping(&self.mem, tv));
        assert(space1.framed_at(tv)) by {
            let i = choose|i: int|
                0 <= i < space0.areas().len() && #[trigger] space0.areas()[i].contains_vpn(tv)
                    && space0.areas()[i].map_type == crate::mm::memory_set::MapType::Framed;
            assert(i != idx);
            let k = if i < idx {
                i
            } else {
                i - 1
            };
            assert(space1.areas()[k] == space0.areas()[i]);
            assert(space1.areas()[k].contains_vpn(tv));
        }
        assert forall|f: u64|
            self.mem.contains(f) && self.frames@.is_allocated(f) && !self.owns(pid, f)
            implies #[trigger] other.mem.frame(f) == self.mem.frame(f) by {
            assert(!space0.table().nodes().contains(f));
        }
        assert forall|f: u64| self.frames@.is_allocated(f) && !self.owns(pid, f)
            implies #[trigger] other.frames@.is_allocated(f) by {
            if area.data_frames@.contains(f) {
                let k = choose|k: int| 0 <= k < area.data_frames@.len() && area.data_frames@[k] == f;
                assert(space0.data_frames().contains(space0.areas()[idx].data_frames@[k]));
                assert(space0.owns(f));
            }
        }
        self.lemma_moved(other, pid);
        self.lemma_moved_places(other, pid, hand);
    }

    /// Whether `other` is this kernel but for the memory.
    pub open spec fn same_but_mem(&self, other: &Kernel) -> bool {
        &&& other.frames == self.frames
        &&& other.pids == self.pids
        &&& other.stacks == self.stacks
        &&& other.kernel_space == self.kernel_space
        &&& other.apps == self.apps
        &&& other.manager == self.manager
        &&& other.processor == self.processor
        &&& other.platform == self.platform
        &&& other.tasks@ == self.tasks@
    }

    /// Writing to frames of the areas of one task leaves the kernel in order.
    pub proof fn lemma_memory_written(&self, other: &Kernel, pid: usize, hand: Option<usize>)
        requires
            self.wf_hand(hand),
            self.has_task(pid),
            self.same_but_mem(other),
            other.mem.wf(),
            self.mem.same_extent(&other.mem),
            forall|f: u64|
                self.mem.contains(f) && !self.task(pid).inner.addr_space.data_frames().contains(f)
                    ==> #[trigger] other.mem.frame(f) == self.mem.frame(f),
        ensures
            other.wf_hand(hand),
            self.moved_for(other, pid),
    {
        let task = self.task(pid);
        assert(self.task_ok(pid));
        task.inner.addr_space.lemma_wf(&self.mem);
        assert forall|t: u64| #[trigger] task.inner.addr_space.table().nodes().contains(t)
            implies other.mem.frame(t) == self.mem.frame(t) by {
            assert(task.inner.addr_space.owns(t));
        }
        task.inner.lemma_frame_invariance(&self.mem, &other.mem);
        assert(other.task(pid) == self.task(pid));
        assert forall|q: usize| q != pid && q < self.tasks@.len() implies #[trigger] other.tasks@[q as int]
            == self.tasks@[q as int] by {}
        assert forall|f: u64| #[trigger] other.owns(pid, f) implies self.owns(pid, f) by {}
        self.lemma_moved(other, pid);
        self.lemma_moved_places(other, pid, hand);
    }

    /// The trap context of the task `pid`, read from its frame.
    pub fn trap_context(&self, pid: usize) -> (ctx: TrapContext)
        requires
            self.has_task(pid),
            self.task(pid).wf(&self.mem),
        ensures
            ctx.stored_at(&self.mem, self.task(pid).inner.trap_ctx_ppn),
    {
        self.tasks[pid].as_ref().unwrap().inner.trap_context(&self.mem)
    }

    /// Writes the trap context of the task `pid` to its frame.
    pub fn set_trap_context(&mut self, pid: usize, ctx: &TrapContext, Ghost(hand): Ghost<Option<usize>>)
        requires
            old(self).wf_hand(hand),
            old(self).has_task(pid),
        ensures
            final(self).wf_hand(hand),
            old(self).same_but_mem(final(self)),
            old(self).moved_for(final(self), pid),
            old(self).mem.same_but(&final(self).mem, old(self).task(pid).inner.trap_ctx_ppn),
            ctx.stored_at(&final(self).mem, old(self).task(pid).inner.trap_ctx_ppn),
            forall|i: int|
                crate::trap::context::TRAP_CONTEXT_WORDS <= i < 512 ==> #[trigger] final(self).mem.word(
                    old(self).task(pid).inner.trap_ctx_ppn,
                    i,
                ) == old(self).mem.word(old(self).task(pid).inner.trap_ctx_ppn, i),
    {
        let ghost pre = *self;
        proof {
            assert(pre.task_ok(pid));
            pre.task(pid).inner.lemma_trap_frame(&pre.mem);
        }
        self.tasks[pid].as_ref().unwrap().inner.set_trap_context(&mut self.mem, ctx);
        proof {
            self.task(pid).inner.addr_space.lemma_wf(&self.mem);
            pre.lemma_memory_written(self, pid, hand);
        }
    }

    /// Whether `other` is this kernel but for the word with the index `idx`
    /// of the trap context of the task `pid`, which holds `value`.
    pub open spec fn word_written(&self, other: &Kernel, pid: usize, idx: int, value: u64) -> bool {
        let frame = self.task(pid).inner.trap_ctx_ppn;
        &&& self.same_but_mem(other)
        &&& self.mem.same_but(&other.mem, frame)
        &&& other.mem.word(frame, idx) == value
        &&& forall|i: int| 0 <= i < 512 && i != idx ==> #[trigger] other.mem.word(frame, i)
            == self.mem.word(frame, i)
    }

    /// Sets the argument register `a<n>` in the trap context of the task `pid`.
    pub fn set_reg_a(&mut self, pid: usize, n: usize, value: u64, Ghost(hand): Ghost<Option<usize>>)
        requires
            old(self).wf_hand(hand),
            old(self).has_task(pid),
            n < 22,
        ensures
            final(self).wf_hand(hand),
            old(self).word_written(final(self), pid, 10 + n, value),
            old(self).moved_for(final(self), pid),
    {
        let ghost pre = *self;
        proof {
            assert(pre.task_ok(pid));
        }
        let mut ctx = self.trap_context(pid);
        let ghost ctx0 = ctx;
        ctx.set_reg_a(n, value);
        self.set_trap_context(pid, &ctx, Ghost(hand));
        proof {
            let frame = pre.task(pid).inner.trap_ctx_ppn;
            assert forall|i: int| 0 <= i < 512 && i != 10 + n implies #[trigger] self.mem.word(frame, i)
                == pre.mem.word(frame, i) by {
                if i < crate::trap::context::TRAP_CONTEXT_WORDS {
                    assert(self.mem.word(frame, i) == ctx.word(i));
                    assert(pre.mem.word(frame, i) == ctx0.word(i));
                }
            }
            assert(self.mem.word(frame, 10 + n) == ctx.word(10 + n));
        }
    }

    /// Sets `sepc` in the trap context of the task `pid`.
    pub fn set_sepc(&mut self, pid: usize, value: u64, Ghost(hand): Ghost<Option<usize>>)
        requires
            old(self).wf_hand(hand),
            old(self).has_task(pid),
        ensures
            final(self).wf_hand(hand),
            old(self).word_written(
                final(self),
                pid,
                crate::trap::context::WORD_SEPC as int,
                value,
            ),
            old(self).moved_for(final(self), pid),
    {
        let ghost pre = *self;
        proof {
            assert(pre.task_ok(pid));
        }
        let mut ctx = self.trap_context(pid);
        let ghost ctx0 = ctx;
        ctx.sepc = value;
        self.set_trap_context(pid, &ctx, Ghost(hand));
        proof {
            let frame = pre.task(pid).inner.trap_ctx_ppn;
            assert forall|i: int|
                0 <= i < 512 && i != crate::trap::context::WORD_SEPC implies #[trigger] self.mem.word(
                frame,
                i,
            ) == pre.mem.word(frame, i) by {
                if i < crate::trap::context::TRAP_CONTEXT_WORDS {
                    assert(self.mem.word(frame, i) == ctx.word(i));
                    assert(pre.mem.word(frame, i) == ctx0.word(i));
                }
            }
            assert(self.mem.word(frame, crate::trap::context::WORD_SEPC as int) == ctx.word(
                crate::trap::context::WORD_SEPC as int,
            ));
        }
    }

    /// Counts one more call of the system call `n` for the task `pid`. The
    /// counter wraps round past its largest value.
    pub fn count_syscall(&mut self, pid: usize, n: usize)
        requires
            old(self).has_task(pid),
            n < crate::config::MAX_SYSCALL_NUM,
        ensures
            old(self).same_but_task(final(self), pid),
            final(self).task(pid).inner.state == old(self).task(pid).inner.state,
            final(self).task(pid).inner.exit_code == old(self).task(pid).inner.exit_code,
            final(self).task(pid).inner.children == old(self).task(pid).inner.children,
            final(self).task(pid).inner.syscall_times@ == bumped(
                old(self).task(pid).inner.syscall_times@,
                n as int,
            ),
    {
        let ghost pre = *self;
        let mut task = self.tasks[pid].take().unwrap();
        let inner = task.inner_exclusive_access();
        let count = inner.syscall_times[n];
        inner.syscall_times[n] = count.wrapping_add(1);
        self.tasks.set(pid, Some(task));
        proof {
            assert forall|q: usize| q != pid && q < pre.tasks@.len() implies #[trigger] self.tasks@[q as int]
                == pre.tasks@[q as int] by {}
            assert(self.task(pid).inner.syscall_times@ =~= bumped(
                pre.task(pid).inner.syscall_times@,
                n as int,
            ));
        }
    }

    /// Marks the task `pid` as exited with the exit code `code`.
    pub fn set_task_exited(&mut self, pid: usize, code: i32)
        requires
            old(self).has_task(pid),
        ensures
            old(self).same_but_task(final(self), pid),
            final(self).task(pid).inner.state == TaskState::Exited,
            final(self).task(pid).inner.exit_code == code,
            final(self).task(pid).inner.syscall_times == old(self).task(pid).inner.syscall_times,
            final(self).task(pid).inner.children == old(self).task(pid).inner.children,
    {
        let ghost pre = *self;
        let mut task = self.tasks[pid].take().unwrap();
        let inner = task.inner_exclusive_access();
        inner.set_state(TaskState::Exited);
        inner.exit_code = code;
        self.tasks.set(pid, Some(task));
        proof {
            assert forall|q: usize| q != pid && q < pre.tasks@.len() implies #[trigger] self.tasks@[q as int]
                == pre.tasks@[q as int] by {}
        }
    }

    /// Whether `other` is this kernel with one more task, `child`, which is
    /// ready, waits at the back of the queue, has no children, and owns
    /// frames that were free.
    pub open spec fn added_task(&self, other: &Kernel, child: usize) -> bool {
        let task = other.task(child);
        &&& other.apps == self.apps
        &&& other.kernel_space == self.kernel_space
        &&& other.processor == self.processor
        &&& other.platform == self.platform
        &&& other.mem.wf()
        &&& self.mem.same_extent(&other.mem)
        &&& other.frames@.wf()
        &&& other.frames.within(&other.mem)
        &&& self.pids@.can_alloc()
        &&& child == self.pids@.next()
        &&& other.pids@ == self.pids@.after_alloc()
        &&& other.stacks.wf()
        &&& other.stacks.has(child)
        &&& forall|q: usize| q != child ==> (#[trigger] other.stacks.has(q) <==> self.stacks.has(q))
        &&& forall|q: usize|
            q != child && self.stacks.has(q) ==> #[trigger] other.stacks.slot_of(q)
                == self.stacks.slot_of(q)
        &&& forall|slot: usize| #[trigger] other.stacks.range_of(slot) == self.stacks.range_of(slot)
        &&& other.tasks@.len() == other.pids@.current
        &&& forall|q: usize| q != child && q < self.tasks@.len() ==> #[trigger] other.tasks@[q as int]
            == self.tasks@[q as int]
        &&& other.has_task(child)
        &&& other.manager@ == self.manager@.push(child)
        &&& task.pid.0 == child
        &&& task.wf(&other.mem)
        &&& task.inner.addr_space.owned_in(other.frames@)
        &&& task.inner.addr_space.trampoline() == self.kernel_space.trampoline()
        &&& task.kernel_stack == other.stacks.range_of(other.stacks.slot_of(child))
        &&& task.inner.state == TaskState::Ready
        &&& task.inner.children@.len() == 0
        &&& forall|f: u64| #[trigger]
            other.frames@.is_allocated(f) <==> self.frames@.is_allocated(f) || other.owns(child, f)
        &&& forall|f: u64| #[trigger] other.owns(child, f) ==> !self.frames@.is_allocated(f)
        &&& forall|f: u64|
            self.mem.contains(f) && self.frames@.is_allocated(f) ==> #[trigger] other.mem.frame(f)
                == self.mem.frame(f)
    }

    /// A kernel with one more task is in order.
    pub proof fn lemma_task_added(&self, other: &Kernel, child: usize, hand: Option<usize>)
        requires
            self.wf_hand(hand),
            self.added_task(other, child),
        ensures
            other.wf_hand(hand),
            !self.has_task(child),
            forall|q: usize| self.has_task(q) ==> other.has_task(q) && other.task(q) == self.task(q),
    {
        self.pids@.lemma_alloc();
        assert(!self.has_task(child)) by {
            if self.has_task(child) {
                assert(self.task_ok(child));
            }
        }
        assert forall|q: usize| self.has_task(q) implies other.has_task(q) && other.task(q)
            == self.task(q) by {
            assert(other.tasks@[q as int] == self.tasks@[q as int]);
        }
        assert forall|q: usize| other.has_task(q) && q != child implies self.has_task(q) by {
            if q >= self.tasks@.len() {
                assert(other.pids@.current <= self.pids@.current + 1);
                assert(q == self.tasks@.len());
                assert(self.pids@.recycled.len() == 0);
            } else {
                assert(other.tasks@[q as int] == self.tasks@[q as int]);
            }
        }
        // resources
        self.kernel_space.lemma_wf(&self.mem);
        assert forall|t: u64| #[trigger]
            self.kernel_space.table().nodes().contains(t) implies other.mem.frame(t) == self.mem.frame(
            t,
        ) by {
            assert(self.kernel_space.owns(t));
        }
        self.kernel_space.lemma_frame_invariance(&self.mem, &other.mem);
        assert forall|p: u64| #[trigger] other.kernel_space.owns(p) implies other.frames@.is_allocated(
            p,
        ) by {
            assert(self.frames@.is_allocated(p));
        }
        // table
        assert forall|q: usize| #[trigger] other.has_task(q) implies other.task_ok(q) by {
            if q != child {
                assert(self.has_task(q));
                assert(self.task_ok(q));
                assert(other.task(q) == self.task(q));
                let space = self.task(q).inner.addr_space;
                space.lemma_wf(&self.mem);
                assert forall|t: u64| #[trigger] space.table().nodes().contains(t)
                    implies other.mem.frame(t) == self.mem.frame(t) by {
                    assert(space.owns(t));
                }
                self.task(q).inner.lemma_frame_invariance(&self.mem, &other.mem);
                assert forall|p: u64| #[trigger] space.owns(p) implies other.frames@.is_allocated(
                    p,
                ) by {
                    assert(self.frames@.is_allocated(p));
                }
                assert(other.pids@.is_allocated(q));
                assert(other.stacks.has(q));
            } else {
                assert(other.pids@.is_allocated(child));
            }
        }
        assert forall|q: usize| #[trigger] other.pids@.is_allocated(q) implies other.has_task(q) by {
            if q != child {
                assert(self.pids@.is_allocated(q));
                assert(self.has_task(q));
            }
        }
        assert forall|q: usize| #[trigger] other.stacks.has(q) implies other.has_task(q) by {
            if q != child {
                assert(self.stacks.has(q));
                assert(self.has_task(q));
            }
        }
        // frames
        assert forall|a: usize, b: usize, f: u64|
            other.has_task(a) && other.has_task(b) && a != b && #[trigger] other.owns(a, f)
            implies !#[trigger] other.owns(b, f) by {
            if a != child && b != child {
                assert(self.owns(a, f));
                assert(!self.owns(b, f));
            } else if a == child {
                if other.owns(b, f) {
                    assert(self.task_ok(b));
                    assert(self.task(b).inner.addr_space.owns(f));
                }
            } else {
                assert(self.task_ok(a));
                assert(self.task(a).inner.addr_space.owns(f));
            }
        }
        assert forall|a: usize, f: u64| other.has_task(a) && #[trigger] other.owns(a, f)
            implies !other.kernel_space.owns(f) by {
            if a != child {
                assert(self.owns(a, f));
            } else if self.kernel_space.owns(f) {
                assert(self.frames@.is_allocated(f));
            }
        }
        // places
        let queue = self.manager@;
        assert(!queue.contains(child)) by {
            if queue.contains(child) {
                let i = choose|i: int| 0 <= i < queue.len() && queue[i] == child;
                assert(self.has_task(queue[i]));
            }
        }
        assert forall|q: usize| #[trigger] other.has_task(q) implies other.placed(q, hand) by {
            if q != child {
                assert(self.placed(q, hand));
                if queue.contains(q) {
                    let i = choose|i: int| 0 <= i < queue.len() && queue[i] == q;
                    assert(other.manager@[i] == q);
                }
                if other.manager@.contains(q) {
                    let i = choose|i: int| 0 <= i < other.manager@.len() && other.manager@[i] == q;
                    assert(queue[i] == q);
                }
            } else {
                assert(other.manager@[queue.len() as int] == child);
                if hand == Some(child) {
                    assert(self.has_task(child));
                }
                if self.processor.cur_task == Some(child) {
                    assert(self.has_task(child));
                }
            }
        }
        assert(other.manager@.no_duplicates()) by {
            assert forall|i: int, j: int|
                0 <= i < other.manager@.len() && 0 <= j < other.manager@.len() && i
                    != j implies other.manager@[i] != other.manager@[j] by {
                if i < queue.len() && j < queue.len() {
                    assert(queue[i] != queue[j]);
                } else if i < queue.len() {
                    assert(queue.contains(queue[i]));
                } else if j < queue.len() {
                    assert(queue.contains(queue[j]));
                }
            }
        }
        assert forall|i: int| 0 <= i < other.manager@.len() implies other.has_task(
            #[trigger] other.manager@[i],
        ) by {
            if i < queue.len() {
                assert(self.has_task(queue[i]));
            }
        }
        // families
        assert forall|p: usize, i: int|
            other.has_task(p) && 0 <= i < other.task(p).inner.children@.len() implies {
            let c = #[trigger] other.task(p).inner.children@[i];
            other.has_task(c) && c != p
        } by {
            let c = self.task(p).inner.children@[i];
            assert(self.has_task(c) && c != p);
        }
        assert forall|p: usize| #[trigger] other.has_task(p) implies other.task(
            p,
        ).inner.children@.no_duplicates() by {
            if p != child {
                assert(self.has_task(p));
            }
        }
        assert forall|p: usize, q: usize, i: int, j: int|
            other.has_task(p) && other.has_task(q) && p != q && 0 <= i < other.task(
                p,
            ).inner.children@.len() && 0 <= j < other.task(q).inner.children@.len()
            implies #[trigger] other.task(p).inner.children@[i] != #[trigger] other.task(
            q,
        ).inner.children@[j] by {
            assert(self.task(p).inner.children@[i] != self.task(q).inner.children@[j]);
        }
    }

    /// Puts a task into the table at the index of its identifier, which is
    /// a free index or the one past the last.
    pub fn put_task(&mut self, task: Task)
        requires
            task.pid.0 <= old(self).tasks@.len(),
        ensures
            final(self).tasks@ == if task.pid.0 < old(self).tasks@.len() {
                old(self).tasks@.update(task.pid.0 as int, Some(task))
            } else {
                old(self).tasks@.push(Some(task))
            },
            final(self).mem == old(self).mem,
            final(self).frames == old(self).frames,
            final(self).pids == old(self).pids,
            final(self).stacks == old(self).stacks,
            final(self).kernel_space == old(self).kernel_space,
            final(self).apps == old(self).apps,
            final(self).manager == old(self).manager,
            final(self).processor == old(self).processor,
            final(self).platform == old(self).platform,
    {
        let pid = task.pid.0;
        if pid < self.tasks.len() {
            self.tasks.set(pid, Some(task));
        } else {
            self.tasks.push(Some(task));
        }
    }

    /// Records the task `child`, which is no child yet, as the youngest
    /// child of the task `parent`.
    pub fn push_child(&mut self, parent: usize, child: usize, Ghost(hand): Ghost<Option<usize>>)
        requires
            old(self).wf_hand(hand),
            old(self).has_task(parent),
            old(self).has_task(child),
            child != parent,
            forall|p: usize, i: int|
                old(self).has_task(p) && 0 <= i < old(self).task(p).inner.children@.len() ==> #[trigger] old(self).task(p).inner.children@[i] != child,
        ensures
            final(self).wf_hand(hand),
            old(self).same_but_task(final(self), parent),
            final(self).task(parent).inner.children@ == old(self).task(parent).inner.children@.push(
                child,
            ),
            final(self).task(parent).inner.state == old(self).task(parent).inner.state,
            final(self).task(parent).inner.exit_code == old(self).task(parent).inner.exit_code,
            final(self).task(parent).inner.syscall_times == old(self).task(
                parent,
            ).inner.syscall_times,
    {
        let ghost pre = *self;
        let mut task = self.tasks[parent].take().unwrap();
        task.inner_exclusive_access().children.push(child);
        self.tasks.set(parent, Some(task));
        proof {
            assert forall|q: usize| q != parent && q < pre.tasks@.len() implies #[trigger] self.tasks@[q as int]
                == pre.tasks@[q as int] by {}
            assert(pre.task_ok(parent));
            pre.lemma_bookkeeping(self, parent);
            assert forall|p: usize| self.has_task(p) == pre.has_task(p) by {
                if p != parent && p < pre.tasks@.len() {
                    assert(self.tasks@[p as int] == pre.tasks@[p as int]);
                }
            }
            assert forall|p: usize| p != parent && self.has_task(p) implies self.task(p) == pre.task(
                p,
            ) by {
                assert(self.tasks@[p as int] == pre.tasks@[p as int]);
            }
            assert forall|q: usize| #[trigger] self.has_task(q) implies self.placed(q, hand) by {
                assert(pre.has_task(q));
                assert(pre.placed(q, hand));
            }
            assert forall|i: int| 0 <= i < self.manager@.len() implies self.has_task(
                #[trigger] self.manager@[i],
            ) by {
                assert(pre.has_task(pre.manager@[i]));
            }
            let old_list = pre.task(parent).inner.children@;
            let new_list = self.task(parent).inner.children@;
            assert forall|p: usize, i: int|
                self.has_task(p) && 0 <= i < self.task(p).inner.children@.len() implies {
                let c = #[trigger] self.task(p).inner.children@[i];
                self.has_task(c) && c != p
            } by {
                if p == parent && i == old_list.len() {
                } else {
                    let c = pre.task(p).inner.children@[i];
                    assert(pre.has_task(c) && c != p);
                    assert(self.task(p).inner.children@[i] == c);
                }
            }
            assert forall|p: usize| #[trigger] self.has_task(p) implies self.task(
                p,
            ).inner.children@.no_duplicates() by {
                assert(pre.has_task(p));
                if p == parent {
                    assert forall|i: int, j: int|
                        0 <= i < new_list.len() && 0 <= j < new_list.len() && i != j implies new_list[i]
                        != new_list[j] by {
                        if i < old_list.len() && j < old_list.len() {
                            assert(old_list[i] != old_list[j]);
                        } else if i < old_list.len() {
                            assert(pre.task(parent).inner.children@[i] != child);
                        } else if j < old_list.len() {
                            assert(pre.task(parent).inner.children@[j] != child);
                        }
                    }
                }
            }
            assert forall|p: usize, q: usize, i: int, j: int|
                self.has_task(p) && self.has_task(q) && p != q && 0 <= i < self.task(
                    p,
                ).inner.children@.len() && 0 <= j < self.task(q).inner.children@.len()
                implies #[trigger] self.task(p).inner.children@[i] != #[trigger] self.task(
                q,
            ).inner.children@[j] by {
                if p == parent && i == old_list.len() {
                    assert(pre.task(q).inner.children@[j] != child);
                } else if q == parent && j == old_list.len() {
                    assert(pre.task(p).inner.children@[i] != child);
                } else {
                    assert(pre.task(p).inner.children@[i] != pre.task(q).inner.children@[j]);
                }
            }
        }
    }

    /// Whether the table of `other` is that of this kernel once the task
    /// `parent` has reaped its child at the place `idx` of its children:
    /// the child has left the table and the children of the parent, and
    /// nothing else has changed.
    pub open spec fn reaped_tasks(&self, other: &Kernel, parent: usize, idx: int) -> bool {
        let child = self.task(parent).inner.children@[idx];
        &&& other.manager == self.manager
        &&& other.processor == self.processor
        &&& other.tasks@.len() == self.tasks@.len()
        &&& other.tasks@[child as int] is None
        &&& forall|q: usize|
            q != child && q != parent && q < self.tasks@.len() ==> #[trigger] other.tasks@[q as int]
                == self.tasks@[q as int]
        &&& other.has_task(parent)
        &&& other.task(parent).pid == self.task(parent).pid
        &&& other.task(parent).name == self.task(parent).name
        &&& other.task(parent).start_time_ms == self.task(parent).start_time_ms
        &&& other.task(parent).kernel_stack == self.task(parent).kernel_stack
        &&& other.task(parent).inner.addr_space == self.task(parent).inner.addr_space
        &&& other.task(parent).inner.trap_ctx_ppn == self.task(parent).inner.trap_ctx_ppn
        &&& other.task(parent).inner.state == self.task(parent).inner.state
        &&& other.task(parent).inner.exit_code == self.task(parent).inner.exit_code
        &&& other.task(parent).inner.syscall_times == self.task(parent).inner.syscall_times
        &&& other.task(parent).inner.children@ == self.task(parent).inner.children@.remove(idx)
    }

    /// Whether `other` is this kernel once the task `parent` has reaped its
    /// child at the place `idx` of its children: the child has left the
    /// table, and its frames, its identifier and its kernel stack are free.
    pub open spec fn reaped(&self, other: &Kernel, parent: usize, idx: int) -> bool {
        let child = self.task(parent).inner.children@[idx];
        &&& self.reaped_tasks(other, parent, idx)
        &&& other.mem == self.mem
        &&& other.apps == self.apps
        &&& other.kernel_space == self.kernel_space
        &&& other.platform == self.platform
        &&& other.frames@.wf()
        &&& other.frames@.base == self.frames@.base
        &&& other.frames@.end == self.frames@.end
        &&& other.frames@.current == self.frames@.current
        &&& forall|f: u64| #[trigger]
            other.frames@.is_allocated(f) <==> self.frames@.is_allocated(f) && !self.owns(child, f)
        &&& other.frames@.free_count() == self.frames@.free_count() + self.task(
            child,
        ).inner.addr_space.owned_count()
        &&& other.pids@ == self.pids@.after_dealloc(child)
        &&& other.stacks.wf()
        &&& !other.stacks.has(child)
        &&& forall|q: usize| q != child ==> (#[trigger] other.stacks.has(q) <==> self.stacks.has(q))
        &&& forall|q: usize|
            q != child && self.stacks.has(q) ==> #[trigger] other.stacks.slot_of(q)
                == self.stacks.slot_of(q)
        &&& forall|slot: usize| #[trigger] other.stacks.range_of(slot) == self.stacks.range_of(slot)
    }

    /// What the tasks of the table are once a child was reaped.
    proof fn lemma_reaped_tasks(&self, other: &Kernel, parent: usize, idx: int)
        requires
            self.has_task(parent),
            0 <= idx < self.task(parent).inner.children@.len(),
            self.has_task(self.task(parent).inner.children@[idx]),
            self.task(parent).inner.children@[idx] != parent,
            self.reaped_tasks(other, parent, idx),
        ensures
            forall|q: usize| #[trigger]
                other.has_task(q) <==> self.has_task(q) && q != self.task(parent).inner.children@[idx],
            forall|q: usize| other.has_task(q) && q != parent ==> #[trigger] other.task(q) == self.task(q),
    {
        let child = self.task(parent).inner.children@[idx];
        assert forall|q: usize| #[trigger]
            other.has_task(q) <==> self.has_task(q) && q != child by {
            if q != parent && q != child && q < self.tasks@.len() {
                assert(other.tasks@[q as int] == self.tasks@[q as int]);
            }
        }
        assert forall|q: usize| other.has_task(q) && q != parent implies #[trigger] other.task(q)
            == self.task(q) by {
            assert(other.tasks@[q as int] == self.tasks@[q as int]);
        }
    }

    /// The resources, the table and the ownership of frames are in order
    /// once a child was reaped.
    proof fn lemma_reaped_tables(&self, other: &Kernel, parent: usize, idx: int)
        requires
            self.resources_ok(),
            self.table_ok(),
            self.frames_ok(),
            self.has_task(parent),
            0 <= idx < self.task(parent).inner.children@.len(),
            self.has_task(self.task(parent).inner.children@[idx]),
            self.task(parent).inner.children@[idx] != parent,
            self.reaped(other, parent, idx),
        ensures
            other.resources_ok(),
            other.table_ok(),
            other.frames_ok(),
    {
        let child = self.task(parent).inner.children@[idx];
        self.lemma_reaped_tasks(other, parent, idx);
        assert(self.task_ok(child));
        assert(self.task_ok(parent));
        self.pids@.lemma_dealloc(child);
        assert forall|p: u64| #[trigger] other.kernel_space.owns(p) implies other.frames@.is_allocated(
            p,
        ) by {
            assert(self.frames@.is_allocated(p));
            if self.owns(child, p) {
                assert(!self.kernel_space.owns(p));
            }
        }
        assert forall|q: usize| #[trigger] other.has_task(q) implies other.task_ok(q) by {
            assert(self.has_task(q));
            assert(self.task_ok(q));
            let space = self.task(q).inner.addr_space;
            if q != parent {
                assert(other.task(q) == self.task(q));
            }
            assert(other.task(q).inner.addr_space == space);
            assert forall|p: u64| #[trigger] space.owns(p) implies other.frames@.is_allocated(p) by {
                assert(self.owns(q, p));
                assert(self.frames@.is_allocated(p));
                if self.owns(child, p) {
                    assert(!self.owns(child, p));
                }
            }
        }
        assert forall|q: usize| #[trigger] other.pids@.is_allocated(q) implies other.has_task(q) by {
            assert(self.pids@.is_allocated(q));
            assert(self.has_task(q));
        }
        assert forall|q: usize| #[trigger] other.stacks.has(q) implies other.has_task(q) by {
            assert(self.stacks.has(q));
            assert(self.has_task(q));
        }
        assert forall|a: usize, b: usize, f: u64|
            other.has_task(a) && other.has_task(b) && a != b && #[trigger] other.owns(a, f)
            implies !#[trigger] other.owns(b, f) by {
            if a != parent {
                assert(other.task(a) == self.task(a));
            }
            if b != parent {
                assert(other.task(b) == self.task(b));
            }
            assert(self.owns(a, f));
            assert(!self.owns(b, f));
        }
        assert forall|a: usize, f: u64| other.has_task(a) && #[trigger] other.owns(a, f)
            implies !other.kernel_space.owns(f) by {
            if a != parent {
                assert(other.task(a) == self.task(a));
            }
            assert(self.owns(a, f));
        }
    }

    /// Every task is in its place once a child that had exited was reaped.
    proof fn lemma_reaped_places(&self, other: &Kernel, parent: usize, idx: int, hand: Option<usize>)
        requires
            self.sched_ok(hand),
            self.has_task(parent),
            0 <= idx < self.task(parent).inner.children@.len(),
            self.has_task(self.task(parent).inner.children@[idx]),
            self.task(parent).inner.children@[idx] != parent,
            self.task(self.task(parent).inner.children@[idx]).inner.state == TaskState::Exited,
            self.reaped_tasks(other, parent, idx),
        ensures
            other.sched_ok(hand),
    {
        let child = self.task(parent).inner.children@[idx];
        self.lemma_reaped_tasks(other, parent, idx);
        assert(self.placed(child, hand));
        assert forall|q: usize| #[trigger] other.has_task(q) implies other.placed(q, hand) by {
            assert(self.has_task(q));
            assert(self.placed(q, hand));
            if q != parent {
                assert(other.task(q) == self.task(q));
            }
        }
        assert forall|i: int| 0 <= i < other.manager@.len() implies other.has_task(
            #[trigger] other.manager@[i],
        ) by {
            let q = self.manager@[i];
            assert(self.has_task(q));
            assert(self.manager@.contains(q));
        }
    }

    /// The families are in order once a child was reaped.
    proof fn lemma_reaped_family(&self, other: &Kernel, parent: usize, idx: int)
        requires
            self.family_ok(),
            self.has_task(parent),
            0 <= idx < self.task(parent).inner.children@.len(),
            self.reaped_tasks(other, parent, idx),
        ensures
            other.family_ok(),
    {
        let list = self.task(parent).inner.children@;
        let child = list[idx];
        assert(self.has_task(child) && child != parent);
        self.lemma_reaped_tasks(other, parent, idx);
        let new_list = other.task(parent).inner.children@;
        assert forall|p: usize, i: int|
            other.has_task(p) && 0 <= i < other.task(p).inner.children@.len() implies {
            let c = #[trigger] other.task(p).inner.children@[i];
            other.has_task(c) && c != p
        } by {
            if p == parent {
                let o = if i < idx {
                    i
                } else {
                    i + 1
                };
                assert(new_list[i] == list[o]);
                assert(list[o] != list[idx]);
                let c = self.task(parent).inner.children@[o];
                assert(self.has_task(c) && c != parent);
            } else {
                assert(other.task(p) == self.task(p));
                let c = self.task(p).inner.children@[i];
                assert(self.has_task(c) && c != p);
                assert(self.task(p).inner.children@[i] != self.task(parent).inner.children@[idx]);
            }
        }
        assert forall|p: usize| #[trigger] other.has_task(p) implies other.task(
            p,
        ).inner.children@.no_duplicates() by {
            assert(self.has_task(p));
            if p == parent {
                assert forall|i: int, j: int|
                    0 <= i < new_list.len() && 0 <= j < new_list.len() && i != j implies new_list[i]
                    != new_list[j] by {
                    let oi = if i < idx {
                        i
                    } else {
                        i + 1
                    };
                    let oj = if j < idx {
                        j
                    } else {
                        j + 1
                    };
                    assert(list[oi] != list[oj]);
                }
            } else {
                assert(other.task(p) == self.task(p));
            }
        }
        assert forall|p: usize, q: usize, i: int, j: int|
            other.has_task(p) && other.has_task(q) && p != q && 0 <= i < other.task(
                p,
            ).inner.children@.len() && 0 <= j < other.task(q).inner.children@.len()
            implies #[trigger] other.task(p).inner.children@[i] != #[trigger] other.task(
            q,
        ).inner.children@[j] by {
            let oi = if p == parent && i >= idx {
                i + 1
            } else {
                i
            };
            let oj = if q == parent && j >= idx {
                j + 1
            } else {
                j
            };
            if p != parent {
                assert(other.task(p) == self.task(p));
            }
            if q != parent {
                assert(other.task(q) == self.task(q));
            }
            assert(other.task(p).inner.children@[i] == self.task(p).inner.children@[oi]);
            assert(other.task(q).inner.children@[j] == self.task(q).inner.children@[oj]);
            assert(self.task(p).inner.children@[oi] != self.task(q).inner.children@[oj]);
        }
    }

    /// A kernel in which a task has reaped a child that had exited is in order.
    pub proof fn lemma_reaped(&self, other: &Kernel, parent: usize, idx: int, hand: Option<usize>)
        requires
            self.wf_hand(hand),
            self.has_task(parent),
            0 <= idx < self.task(parent).inner.children@.len(),
            self.task(self.task(parent).inner.children@[idx]).inner.state == TaskState::Exited,
            self.reaped(other, parent, idx),
        ensures
            other.wf_hand(hand),
    {
        let child = self.task(parent).inner.children@[idx];
        assert(self.has_task(child) && child != parent);
        self.lemma_reaped_tables(other, parent, idx);
        self.lemma_reaped_places(other, parent, idx, hand);
        self.lemma_reaped_family(other, parent, idx);
    }

    /// Removes the child at the place `idx` of the children of the task
    /// `parent`, a task that has exited, from the table, and gives its
    /// frames, its identifier and its kernel stack back. Returns the
    /// identifier and the exit code of the child.
    pub fn reap(&mut self, parent: usize, idx: usize, Ghost(hand): Ghost<Option<usize>>) -> (res: (
        usize,
        i32,
    ))
        requires
            old(self).wf_hand(hand),
            old(self).has_task(parent),
            idx < old(self).task(parent).inner.children@.len(),
            old(self).task(old(self).task(parent).inner.children@[idx as int]).inner.state
                == TaskState::Exited,
        ensures
            final(self).wf_hand(hand),
            old(self).reaped(final(self), parent, idx as int),
            res.0 == old(self).task(parent).inner.children@[idx as int],
            res.1 == old(self).task(res.0).inner.exit_code,
    {
        let ghost pre = *self;
        proof {
            let child = pre.task(parent).inner.children@[idx as int];
            assert(pre.has_task(child) && child != parent);
            assert(pre.task_ok(child));
        }
        let mut parent_task = self.tasks[parent].take().unwrap();
        let child = parent_task.inner_exclusive_access().children.remove(idx);
        self.tasks.set(parent, Some(parent_task));
        let child_task = self.tasks[child].take().unwrap();
        let code = child_task.inner.exit_code;
        let Task { inner, .. } = child_task;
        let TaskInner { addr_space, .. } = inner;
        addr_space.release(&mut self.frames, &self.mem);
        self.stacks.dealloc(child);
        self.pids.dealloc(child);
        proof {
            assert forall|q: usize|
                q != child && q != parent && q < pre.tasks@.len() implies #[trigger] self.tasks@[q as int]
                == pre.tasks@[q as int] by {}
            pre.lemma_reaped(self, parent, idx as int, hand);
        }
        (child, code)
    }

    /// A change of one task that keeps its children keeps the families in
    /// order.
    pub proof fn lemma_family_kept(&self, other: &Kernel, pid: usize)
        requires
            self.family_ok(),
            self.same_but_task(other, pid),
            other.task(pid).inner.children@ == self.task(pid).inner.children@,
        ensures
            other.family_ok(),
    {
        assert forall|p: usize| other.has_task(p) implies self.has_task(p) && other.task(
            p,
        ).inner.children@ == self.task(p).inner.children@ by {
            if p != pid {
                assert(other.tasks@[p as int] == self.tasks@[p as int]);
            }
        }
        assert forall|p: usize| self.has_task(p) implies other.has_task(p) by {
            if p != pid {
                assert(other.tasks@[p as int] == self.tasks@[p as int]);
            }
        }
        assert forall|p: usize, i: int|
            other.has_task(p) && 0 <= i < other.task(p).inner.children@.len() implies {
            let c = #[trigger] other.task(p).inner.children@[i];
            other.has_task(c) && c != p
        } by {
            let c = self.task(p).inner.children@[i];
            assert(self.has_task(c) && c != p);
        }
        assert forall|p: usize| #[trigger] other.has_task(p) implies other.task(
            p,
        ).inner.children@.no_duplicates() by {
            assert(self.has_task(p));
        }
        assert forall|p: usize, q: usize, i: int, j: int|
            other.has_task(p) && other.has_task(q) && p != q && 0 <= i < other.task(
                p,
            ).inner.children@.len() && 0 <= j < other.task(q).inner.children@.len()
            implies #[trigger] other.task(p).inner.children@[i] != #[trigger] other.task(
            q,
        ).inner.children@[j] by {
            assert(self.task(p).inner.children@[i] != self.task(q).inner.children@[j]);
        }
    }

    /// What the other tasks keep when one task changes: their place and
    /// their children.
    pub proof fn lemma_others_placed(&self, other: &Kernel, pid: usize, hand: Option<usize>, q: usize)
        requires
            self.same_but_task(other, pid),
            self.has_task(q),
            q != pid,
            self.placed(q, hand),
        ensures
            other.has_task(q),
            other.task(q) == self.task(q),
            other.placed(q, hand),
    {
        assert(other.tasks@[q as int] == self.tasks@[q as int]);
    }

    /// Sets the state of the task `pid`.
    pub fn set_task_state(&mut self, pid: usize, state: TaskState)
        requires
            old(self).has_task(pid),
        ensures
            old(self).same_but_task(final(self), pid),
            final(self).task(pid).inner.state == state,
            final(self).task(pid).inner.exit_code == old(self).task(pid).inner.exit_code,
            final(self).task(pid).inner.syscall_times == old(self).task(pid).inner.syscall_times,
            final(self).task(pid).inner.children == old(self).task(pid).inner.children,
    {
        let ghost pre = *self;
        let mut task = self.tasks[pid].take().unwrap();
        task.inner_exclusive_access().set_state(state);
        self.tasks.set(pid, Some(task));
        proof {
            assert forall|q: usize| q != pid && q < pre.tasks@.len() implies #[trigger] self.tasks@[q as int]
                == pre.tasks@[q as int] by {}
        }
    }

    /// The state of the task `pid`.
    pub fn task_state(&self, pid: usize) -> (state: TaskState)
        requires
            self.has_task(pid),
        ensures
            state == self.task(pid).inner.state,
    {
        self.tasks[pid].as_ref().unwrap().inner.state
    }
}


/// The counters of a task after one more call of the system call `n`: the
/// counter of that call is one more, or zero past the largest value.
pub open spec fn bumped(times: Seq<u32>, n: int) -> Seq<u32> {
    times.update(
        n,
        if times[n] == u32::MAX {
            0u32
        } else {
            (times[n] + 1) as u32
        },
    )
}

/// The counters of a task after the system calls `calls`, in order.
pub open spec fn bumped_by(times: Seq<u32>, calls: Seq<int>) -> Seq<u32>
    decreases calls.len(),
{
    if calls.len() == 0 {
        times
    } else {
        bumped(bumped_by(times, calls.drop_last()), calls.last())
    }
}

/// How often the system call `n` occurs in `calls`.
pub open spec fn occurrences(calls: Seq<int>, n: int) -> nat
    decreases calls.len(),
{
    if calls.len() == 0 {
        0
    } else {
        occurrences(calls.drop_last(), n) + if calls.last() == n {
            1nat
        } else {
            0nat
        }
    }
}

/// The counters count: after any sequence of system calls, each counter
/// holds the number of calls of its system call on top of what it held,
/// modulo two to the power 32.
pub proof fn lemma_counters_count(times: Seq<u32>, calls: Seq<int>, n: int)
    requires
        0 <= n < times.len(),
        forall|i: int| 0 <= i < calls.len() ==> 0 <= #[trigger] calls[i] < times.len(),
    ensures
        bumped_by(times, calls).len() == times.len(),
        bumped_by(times, calls)[n] == (times[n] + occurrences(calls, n)) % 0x1_0000_0000,
    decreases calls.len(),
{
    if calls.len() > 0 {
        lemma_counters_count(times, calls.drop_last(), n);
        let before = bumped_by(times, calls.drop_last());
        let total = times[n] + occurrences(calls.drop_last(), n);
        assert(before[n] == total % 0x1_0000_0000);
        if calls.last() == n {
            assert((total + 1) % 0x1_0000_0000 == if total % 0x1_0000_0000 == 0xffff_ffff {
                0
            } else {
                total % 0x1_0000_0000 + 1
            });
        }
    }
}

} // verus!
