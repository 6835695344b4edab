//! Bringing the kernel up: its memory, its allocators, its address space,
//! and the first task.

use vstd::prelude::*;
use crate::config::MEMORY_END;
use crate::kernel::{Kernel, Platform};
use crate::loader::{get_appid_by_name, AppCatalog};
use crate::mm::address::{ceil, floor, virt_addr};
use crate::mm::frame_allocator::StackFrameAllocator;
use crate::mm::memory::PhysMemory;
use crate::mm::kernel_space::KernelLayout;
use crate::mm::memory_set::{MemError, MemorySet};
use crate::task::kernel_stack::{KernelStackPool, STACK_BASE_LIMIT};
use crate::task::manager::TaskManager;
use crate::task::pid::PidAllocator;
use crate::task::processor::Processor;
use crate::task::task::{new_failure, started, Task, TaskError, TaskSeed};

verus! {

/// Why the kernel cannot be brought up.
#[derive(Clone, Copy, Debug, PartialEq, Eq, Structural)]
pub enum BootError {
    /// The kernel image ends past the end of the memory, or the kernel
    /// stacks start too high.
    BadLayout,
    /// The kernel's address space cannot be built.
    Memory(MemError),
}

/// The first frame past the kernel image.
pub open spec fn first_frame(layout: &KernelLayout) -> u64 {
    ceil(virt_addr(layout.ekernel))
}

/// The frame past the last frame of the memory.
pub open spec fn end_frame() -> u64 {
    floor(MEMORY_END)
}

/// Why bringing the kernel up fails, if it does.
pub open spec fn boot_failure(layout: &KernelLayout, stack_base: u64) -> Option<BootError> {
    if first_frame(layout) > end_frame() || stack_base > STACK_BASE_LIMIT {
        Some(BootError::BadLayout)
    } else {
        match layout.failure((end_frame() - first_frame(layout)) as nat) {
            Some(e) => Some(BootError::Memory(e)),
            None => None,
        }
    }
}

impl Kernel {
    /// Brings the kernel up: the frames from the end of the kernel image
    /// to the end of the memory are zeroed and managed by the frame
    /// allocator, the kernel's address space is built, and the allocators
    /// of identifiers and kernel stacks, the table of tasks and the ready
    /// queue are empty.
    pub fn new(layout: &KernelLayout, apps: AppCatalog, stack_base: u64, platform: Platform) -> (res:
        Result<Kernel, BootError>)
        requires
            apps.wf(),
        ensures
            match res {
                Ok(kernel) => {
                    &&& boot_failure(layout, stack_base) is None
                    &&& kernel.wf()
                    &&& kernel.tasks@.len() == 0
                    &&& kernel.manager@.len() == 0
                    &&& kernel.processor.cur_task is None
                    &&& kernel.apps == apps
                    &&& kernel.platform == platform
                    &&& kernel.mem.base() == first_frame(layout)
                    &&& kernel.mem.count() == end_frame() - first_frame(layout)
                    &&& kernel.frames@.base == first_frame(layout)
                    &&& kernel.frames@.end == end_frame()
                    &&& kernel.frames@ == crate::mm::frame_allocator::FramePool::fresh(
                        first_frame(layout),
                        end_frame(),
                    ).after_allocs(crate::mm::memory_set::Cover::total(layout.areas()))
                    &&& kernel.frames@.free_count() == end_frame() - first_frame(layout)
                        - crate::mm::memory_set::Cover::total(layout.areas())
                    &&& forall|p: u64| #[trigger]
                        kernel.frames@.is_allocated(p) <==> kernel.kernel_space.owns(p)
                    &&& forall|p: u64|
                        kernel.mem.contains(p) && !kernel.kernel_space.owns(p)
                            ==> #[trigger] kernel.mem.frame(p) == crate::mm::memory::zero_frame()
                    &&& kernel.pids@.current == 0
                    &&& kernel.kernel_space.laid_out(layout.areas())
                    &&& kernel.kernel_space.trampoline() == crate::mm::address::spec_ppn_of(
                        layout.strampoline,
                    )
                    &&& kernel.stacks.base() == stack_base
                },
                Err(e) => boot_failure(layout, stack_base) == Some(e),
            },
    {
        let first = ceil(virt_addr(layout.ekernel));
        let end = floor(MEMORY_END);
        if first > end || stack_base > STACK_BASE_LIMIT {
            return Err(BootError::BadLayout);
        }
        let mut mem = PhysMemory::new(first, (end - first) as usize);
        let mut frames = StackFrameAllocator::new(first, end);
        let kernel_space = match MemorySet::new_kernel(&mut frames, &mut mem, layout) {
            Ok(space) => space,
            Err(e) => {
                return Err(BootError::Memory(e));
            },
        };
        let kernel = Kernel {
            mem,
            frames,
            pids: PidAllocator::new(),
            stacks: KernelStackPool::new(stack_base),
            kernel_space,
            apps,
            tasks: Vec::new(),
            manager: TaskManager::new(),
            processor: Processor::new(),
            platform,
        };
        proof {
            assert forall|pid: usize| !kernel.pids@.is_allocated(pid) by {}
            assert forall|pid: usize| !kernel.stacks.has(pid) by {}
        }
        Ok(kernel)
    }
}

/// The name of the first program.
pub open spec fn initproc_name() -> Seq<char> {
    "ch5b_initproc"@
}

/// Why adding the first task fails, if it does.
pub open spec fn initproc_failure(kernel: &Kernel) -> Option<TaskError> {
    match kernel.apps.find(initproc_name()) {
        None => Some(TaskError::NoSuchApp),
        Some(id) => new_failure(
            &kernel.pids,
            &kernel.stacks,
            kernel.apps.images()[id],
            kernel.frames@.free_count(),
        ),
    }
}

/// What a new task takes from the kernel, with the value `sstatus` of the
/// status register, at the time `now_ms`.
pub open spec fn seed_of(kernel: &Kernel, sstatus: u64, now_ms: u64) -> TaskSeed {
    TaskSeed {
        sstatus,
        kernel_satp: kernel.kernel_space.spec_token(),
        trap_handler: kernel.platform.trap_handler,
        trampoline_ppn: kernel.kernel_space.trampoline(),
        now_ms,
    }
}

/// Makes the task of the program `ch5b_initproc` of the catalog, with the
/// value `sstatus` of the status register, at the time `now_ms`, and puts
/// it into the table and at the back of the ready queue. Returns its
/// identifier.
pub fn add_initproc(kernel: &mut Kernel, sstatus: u64, now_ms: u64) -> (res: Result<usize, TaskError>)
    requires
        old(kernel).wf(),
    ensures
        final(kernel).wf(),
        match res {
            Ok(pid) => {
                &&& initproc_failure(old(kernel)) is None
                &&& old(kernel).added_task(final(kernel), pid)
                &&& started(
                    &final(kernel).task(pid),
                    &final(kernel).mem,
                    initproc_name(),
                    old(kernel).apps.images()[old(kernel).apps.find(initproc_name())->0],
                    seed_of(old(kernel), sstatus, now_ms),
                )
            },
            Err(e) => {
                &&& initproc_failure(old(kernel)) == Some(e)
                &&& final(kernel).tasks == old(kernel).tasks
                &&& final(kernel).manager == old(kernel).manager
                &&& final(kernel).processor == old(kernel).processor
                &&& final(kernel).pids == old(kernel).pids
                &&& final(kernel).stacks == old(kernel).stacks
                &&& forall|p: u64| #[trigger]
                    final(kernel).frames@.is_allocated(p) <==> old(kernel).frames@.is_allocated(p)
            },
        },
{
    let ghost pre = *kernel;
    match first_task(kernel, sstatus, now_ms) {
        Ok(task) => {
            let ghost image = pre.apps.images()[pre.apps.find(initproc_name())->0];
            Ok(enroll(kernel, task, Ghost(pre), Ghost(image), Ghost(seed_of(&pre, sstatus, now_ms))))
        },
        Err(e) => Err(e),
    }
}

/// Makes the task of the program `ch5b_initproc` of the catalog, without
/// putting it into the table.
fn first_task(kernel: &mut Kernel, sstatus: u64, now_ms: u64) -> (res: Result<Task, TaskError>)
    requires
        old(kernel).wf(),
    ensures
        final(kernel).apps == old(kernel).apps,
        final(kernel).kernel_space == old(kernel).kernel_space,
        final(kernel).processor == old(kernel).processor,
        final(kernel).platform == old(kernel).platform,
        final(kernel).tasks == old(kernel).tasks,
        final(kernel).manager == old(kernel).manager,
        match res {
            Err(e) => {
                &&& initproc_failure(old(kernel)) == Some(e)
                &&& final(kernel).wf()
                &&& final(kernel).pids == old(kernel).pids
                &&& final(kernel).stacks == old(kernel).stacks
                &&& forall|p: u64| #[trigger]
                    final(kernel).frames@.is_allocated(p) <==> old(kernel).frames@.is_allocated(p)
            },
            Ok(task) => {
                let pre = old(kernel);
                let seed = seed_of(old(kernel), sstatus, now_ms);
                let image = pre.apps.images()[pre.apps.find(initproc_name())->0];
                &&& initproc_failure(old(kernel)) is None
                &&& final(kernel).pids@.wf()
                &&& final(kernel).stacks.wf()
                &&& final(kernel).frames@.wf()
                &&& final(kernel).mem.wf()
                &&& final(kernel).frames.within(&final(kernel).mem)
                &&& pre.mem.same_extent(&final(kernel).mem)
                &&& forall|slot: usize| #[trigger]
                    final(kernel).stacks.range_of(slot) == pre.stacks.range_of(slot)
                &&& forall|p: u64|
                    pre.mem.contains(p) && pre.frames@.is_allocated(p) ==> #[trigger] final(kernel).mem.frame(p) == pre.mem.frame(p)
                &&& pre.pids@.can_alloc()
                &&& task.pid.0 == pre.pids@.next()
                &&& final(kernel).pids@ == pre.pids@.after_alloc()
                &&& final(kernel).stacks.has(task.pid.0)
                &&& forall|q: usize|
                    q != task.pid.0 ==> (#[trigger] final(kernel).stacks.has(q) <==> pre.stacks.has(q))
                &&& forall|q: usize|
                    q != task.pid.0 && pre.stacks.has(q) ==> #[trigger] final(kernel).stacks.slot_of(q)
                        == pre.stacks.slot_of(q)
                &&& task.kernel_stack == final(kernel).stacks.range_of(
                    final(kernel).stacks.slot_of(task.pid.0),
                )
                &&& task.wf(&final(kernel).mem)
                &&& task.inner.addr_space.owned_in(final(kernel).frames@)
                &&& forall|p: u64| #[trigger]
                    final(kernel).frames@.is_allocated(p) <==> pre.frames@.is_allocated(p)
                        || task.inner.addr_space.owns(p)
                &&& forall|p: u64| #[trigger]
                    task.inner.addr_space.owns(p) ==> !pre.frames@.is_allocated(p)
                &&& started(&task, &final(kernel).mem, initproc_name(), image, seed)
            },
        },
{
    let ghost pre = *kernel;
    proof {
        reveal_strlit("ch5b_initproc");
        pre.kernel_space.lemma_wf(&pre.mem);
    }
    let id = match get_appid_by_name(&kernel.apps, "ch5b_initproc") {
        Some(id) => id,
        None => {
            return Err(TaskError::NoSuchApp);
        },
    };
    let seed = TaskSeed {
        sstatus,
        kernel_satp: kernel.kernel_space.token(&kernel.mem),
        trap_handler: kernel.platform.trap_handler,
        trampoline_ppn: kernel.kernel_space.trampoline_ppn(),
        now_ms,
    };
    proof {
        assert forall|q: usize| #[trigger] pre.stacks.has(q) implies pre.pids@.is_allocated(q) by {
            assert(pre.has_task(q));
            assert(pre.task_ok(q));
        }
    }
    let made = Task::new(
        "ch5b_initproc",
        kernel.apps.image(id),
        &seed,
        &mut kernel.pids,
        &mut kernel.stacks,
        &mut kernel.frames,
        &mut kernel.mem,
    );
    let task = match made {
        Ok(task) => task,
        Err(e) => {
            proof {
                lemma_frames_shuffled(&pre, kernel, None);
            }
            return Err(e);
        },
    };
    Ok(task)
}


/// Puts a task that was just made into the table and at the back of the
/// ready queue. `pre` is the kernel before the task was made.
fn enroll(
    kernel: &mut Kernel,
    task: Task,
    Ghost(pre): Ghost<Kernel>,
    Ghost(image): Ghost<Seq<u8>>,
    Ghost(seed): Ghost<TaskSeed>,
) -> (pid: usize)
    requires
        pre.wf(),
        old(kernel).apps == pre.apps,
        old(kernel).kernel_space == pre.kernel_space,
        old(kernel).processor == pre.processor,
        old(kernel).platform == pre.platform,
        old(kernel).tasks == pre.tasks,
        old(kernel).manager == pre.manager,
        old(kernel).pids@.wf(),
        old(kernel).stacks.wf(),
        old(kernel).frames@.wf(),
        old(kernel).mem.wf(),
        old(kernel).frames.within(&old(kernel).mem),
        pre.mem.same_extent(&old(kernel).mem),
        seed.trampoline_ppn == pre.kernel_space.trampoline(),
        forall|slot: usize| #[trigger] old(kernel).stacks.range_of(slot) == pre.stacks.range_of(slot),
        forall|p: u64|
            pre.mem.contains(p) && pre.frames@.is_allocated(p) ==> #[trigger] old(kernel).mem.frame(p)
                == pre.mem.frame(p),
        pre.pids@.can_alloc(),
        task.pid.0 == pre.pids@.next(),
        old(kernel).pids@ == pre.pids@.after_alloc(),
        old(kernel).stacks.has(task.pid.0),
        forall|q: usize|
            q != task.pid.0 ==> (#[trigger] old(kernel).stacks.has(q) <==> pre.stacks.has(q)),
        forall|q: usize|
            q != task.pid.0 && pre.stacks.has(q) ==> #[trigger] old(kernel).stacks.slot_of(q)
                == pre.stacks.slot_of(q),
        task.kernel_stack == old(kernel).stacks.range_of(old(kernel).stacks.slot_of(task.pid.0)),
        task.wf(&old(kernel).mem),
        task.inner.addr_space.owned_in(old(kernel).frames@),
        forall|p: u64| #[trigger]
            old(kernel).frames@.is_allocated(p) <==> pre.frames@.is_allocated(p)
                || task.inner.addr_space.owns(p),
        forall|p: u64| #[trigger] task.inner.addr_space.owns(p) ==> !pre.frames@.is_allocated(p),
        started(&task, &old(kernel).mem, initproc_name(), image, seed),
    ensures
        pid == task.pid.0,
        final(kernel).wf(),
        pre.added_task(final(kernel), pid),
        final(kernel).task(pid) == task,
        final(kernel).mem == old(kernel).mem,
{
    let pid = task.pid.0;
    let ghost before = *kernel;
    proof {
        pre.pids@.lemma_alloc();
        assert(pid <= pre.tasks@.len());
    }
    kernel.put_task(task);
    kernel.manager.add_task(pid);
    proof {
        assert(kernel.task(pid) == task);
        assert forall|q: usize| q != pid && q < pre.tasks@.len() implies #[trigger] kernel.tasks@[q as int]
            == pre.tasks@[q as int] by {}
        assert forall|f: u64| #[trigger] kernel.owns(pid, f) implies !pre.frames@.is_allocated(f) by {
            assert(task.inner.addr_space.owns(f));
        }
        assert(pre.added_task(kernel, pid));
        pre.lemma_task_added(kernel, pid, None);
    }
    pid
}

/// A kernel whose frame allocator holds the same frames in another order,
/// and whose memory differs in free frames at most, is in order.
pub proof fn lemma_frames_shuffled(pre: &Kernel, post: &Kernel, hand: Option<usize>)
    requires
        pre.wf_hand(hand),
        post.pids == pre.pids,
        post.stacks == pre.stacks,
        post.apps == pre.apps,
        post.kernel_space == pre.kernel_space,
        post.manager == pre.manager,
        post.processor == pre.processor,
        post.platform == pre.platform,
        post.tasks == pre.tasks,
        post.mem.wf(),
        pre.mem.same_extent(&post.mem),
        post.frames@.wf(),
        post.frames.within(&post.mem),
        forall|p: u64|
            pre.mem.contains(p) && pre.frames@.is_allocated(p) ==> #[trigger] post.mem.frame(p)
                == pre.mem.frame(p),
        forall|p: u64| #[trigger] post.frames@.is_allocated(p) <==> pre.frames@.is_allocated(p),
    ensures
        post.wf_hand(hand),
{
    assert forall|q: usize| post.has_task(q) == pre.has_task(q) && post.task(q) == pre.task(q) by {}
    pre.kernel_space.lemma_wf(&pre.mem);
    assert forall|t: u64| #[trigger] pre.kernel_space.table().nodes().contains(t)
        implies post.mem.frame(t) == pre.mem.frame(t) by {
        assert(pre.kernel_space.owns(t));
    }
    pre.kernel_space.lemma_frame_invariance(&pre.mem, &post.mem);
    assert forall|p: u64| #[trigger] post.kernel_space.owns(p) implies post.frames@.is_allocated(
        p,
    ) by {
        assert(pre.frames@.is_allocated(p));
    }
    assert forall|q: usize| #[trigger] post.has_task(q) implies post.task_ok(q) && post.placed(
        q,
        hand,
    ) by {
        assert(pre.has_task(q));
        assert(pre.task_ok(q));
        assert(pre.placed(q, hand));
        let space = pre.task(q).inner.addr_space;
        space.lemma_wf(&pre.mem);
        assert forall|t: u64| #[trigger] space.table().nodes().contains(t) implies post.mem.frame(t)
            == pre.mem.frame(t) by {
            assert(space.owns(t));
        }
        pre.task(q).inner.lemma_frame_invariance(&pre.mem, &post.mem);
        assert forall|p: u64| #[trigger] space.owns(p) implies post.frames@.is_allocated(p) by {
            assert(pre.frames@.is_allocated(p));
        }
    }
    assert forall|q: usize| #[trigger] post.pids@.is_allocated(q) implies post.has_task(q) by {
        assert(pre.has_task(q));
    }
    assert forall|q: usize| #[trigger] post.stacks.has(q) implies post.has_task(q) by {
        assert(pre.has_task(q));
    }
    assert forall|a: usize, b: usize, f: u64|
        post.has_task(a) && post.has_task(b) && a != b && #[trigger] post.owns(a, f)
        implies !#[trigger] post.owns(b, f) by {
        assert(pre.owns(a, f));
        assert(!pre.owns(b, f));
    }
    assert forall|a: usize, f: u64| post.has_task(a) && #[trigger] post.owns(a, f)
        implies !post.kernel_space.owns(f) by {
        assert(pre.owns(a, f));
    }
    assert forall|i: int| 0 <= i < post.manager@.len() implies post.has_task(
        #[trigger] post.manager@[i],
    ) by {
        assert(pre.has_task(pre.manager@[i]));
    }
    assert forall|p: usize, i: int|
        post.has_task(p) && 0 <= i < post.task(p).inner.children@.len() implies {
        let c = #[trigger] post.task(p).inner.children@[i];
        post.has_task(c) && c != p
    } by {
        let c = pre.task(p).inner.children@[i];
        assert(pre.has_task(c) && c != p);
    }
    assert forall|p: usize| #[trigger] post.has_task(p) implies post.task(
        p,
    ).inner.children@.no_duplicates() by {
        assert(pre.has_task(p));
    }
    assert forall|p: usize, q: usize, i: int, j: int|
        post.has_task(p) && post.has_task(q) && p != q && 0 <= i < post.task(
            p,
        ).inner.children@.len() && 0 <= j < post.task(q).inner.children@.len()
        implies #[trigger] post.task(p).inner.children@[i] != #[trigger] post.task(
        q,
    ).inner.children@[j] by {
        assert(pre.task(p).inner.children@[i] != pre.task(q).inner.children@[j]);
    }
}

} // verus!
