//! A task: its identifier, its address space, its trap context, its
//! children and its place in its life.

use vstd::prelude::*;
use crate::config::MAX_SYSCALL_NUM;
use crate::kernel::Kernel;
use crate::mm::address::vpn_of;
use crate::mm::memory::PhysMemory;
use crate::config::{PAGE_SIZE, USER_STACK_PAGE_NUM};
use crate::mm::address::PPN_LIMIT;
use crate::mm::elf::{elf_entry, elf_segments, ElfError};
use crate::mm::frame_allocator::StackFrameAllocator;
use crate::mm::memory_set::{Cover, MemorySet, TRAP_CONTEXT_VPN};
use crate::mm::program::{image_layout, load_failure, segment_byte, segments_top};
use crate::task::kernel_stack::KernelStackPool;
use crate::task::pid::PidAllocator;
use crate::trap::context::user_sstatus;
use crate::syscall::KernelPanic;
use crate::task::pid::PidHandle;
use crate::trap::context::{TrapContext, TRAP_CONTEXT_WORDS, WORD_KERNEL_SP};

verus! {

/// Where a task is in its life.
#[derive(PartialEq, Eq, Structural, Clone, Copy, Debug)]
pub enum TaskState {
    /// Not set up yet.
    UnInit,
    /// Waiting in the ready queue, or about to return to user mode.
    Ready,
    /// Taken from the ready queue to run.
    Running,
    /// Done; kept until its parent asks for its exit code.
    Exited,
}

impl Default for TaskState {
    fn default() -> (state: TaskState)
        ensures
            state == TaskState::UnInit,
    {
        TaskState::UnInit
    }
}

/// The part of a task that changes while it lives.
pub struct TaskInner {
    /// Frame of the trap context.
    pub trap_ctx_ppn: u64,
    pub state: TaskState,
    /// How often the task issued each system call.
    pub syscall_times: [u32; MAX_SYSCALL_NUM],
    pub addr_space: MemorySet,
    /// The children that were not waited for yet, oldest first.
    pub children: Vec<usize>,
    pub exit_code: i32,
}

impl TaskInner {
    /// The address space is well formed and maps the trap context, a page
    /// of a framed area out of reach of user mode, to the frame that the
    /// task records for it.
    pub open spec fn wf(&self, mem: &PhysMemory) -> bool {
        &&& self.addr_space.wf(mem)
        &&& self.addr_space.mapping(mem, TRAP_CONTEXT_VPN) is Some
        &&& self.addr_space.mapping(mem, TRAP_CONTEXT_VPN)->0.ppn() == self.trap_ctx_ppn
        &&& !self.addr_space.mapping(mem, TRAP_CONTEXT_VPN)->0.user()
        &&& self.addr_space.framed_at(TRAP_CONTEXT_VPN)
        &&& self.state != TaskState::UnInit
    }

    /// The trap context is a frame of the memory and no node of the page table.
    pub proof fn lemma_trap_frame(&self, mem: &PhysMemory)
        requires
            self.wf(mem),
        ensures
            mem.wf(),
            mem.contains(self.trap_ctx_ppn),
            self.addr_space.owns(self.trap_ctx_ppn),
            self.addr_space.data_frames().contains(self.trap_ctx_ppn),
            !self.addr_space.table().nodes().contains(self.trap_ctx_ppn),
    {
        self.addr_space.lemma_wf(mem);
        self.addr_space.lemma_mapped_frame_not_node(mem, TRAP_CONTEXT_VPN);
        assert(self.addr_space.owns(self.trap_ctx_ppn));
    }

    /// A task keeps its shape in any memory that agrees on the nodes of its
    /// page table.
    pub proof fn lemma_frame_invariance(&self, mem: &PhysMemory, other: &PhysMemory)
        requires
            self.wf(mem),
            other.wf(),
            mem.same_extent(other),
            forall|t: u64| #[trigger]
                self.addr_space.table().nodes().contains(t) ==> other.frame(t) == mem.frame(t),
        ensures
            self.wf(other),
    {
        self.addr_space.lemma_frame_invariance(mem, other);
        assert(self.addr_space.mapping(other, TRAP_CONTEXT_VPN) == self.addr_space.mapping(
            mem,
            TRAP_CONTEXT_VPN,
        ));
    }

    /// Sets the state.
    pub fn set_state(&mut self, state: TaskState)
        ensures
            final(self).state == state,
            final(self).trap_ctx_ppn == old(self).trap_ctx_ppn,
            final(self).syscall_times == old(self).syscall_times,
            final(self).addr_space == old(self).addr_space,
            final(self).children == old(self).children,
            final(self).exit_code == old(self).exit_code,
    {
        self.state = state
    }

    /// Translates a user address to a physical address; `None` where the
    /// page is not mapped or not accessible in user mode.
    pub fn translate(&self, mem: &PhysMemory, va: u64) -> (pa: Option<u64>)
        requires
            self.addr_space.wf(mem),
        ensures
            match pa {
                Some(addr) => self.addr_space.user_frame(mem, va) == Some((addr / 4096) as u64)
                    && addr % 4096 == va % 4096,
                None => self.addr_space.user_frame(mem, va) is None,
            },
    {
        self.addr_space.translate_user(mem, va)
    }

    /// The trap context, read from its frame.
    pub fn trap_context(&self, mem: &PhysMemory) -> (ctx: TrapContext)
        requires
            self.wf(mem),
        ensures
            ctx.stored_at(mem, self.trap_ctx_ppn),
    {
        proof {
            self.lemma_trap_frame(mem);
        }
        TrapContext::load(mem, self.trap_ctx_ppn)
    }

    /// Writes the trap context to its frame.
    pub fn set_trap_context(&self, mem: &mut PhysMemory, ctx: &TrapContext)
        requires
            self.wf(old(mem)),
        ensures
            self.wf(final(mem)),
            old(mem).same_but(final(mem), self.trap_ctx_ppn),
            ctx.stored_at(final(mem), self.trap_ctx_ppn),
            forall|i: int|
                TRAP_CONTEXT_WORDS <= i < 512 ==> #[trigger] final(mem).word(self.trap_ctx_ppn, i)
                    == old(mem).word(self.trap_ctx_ppn, i),
    {
        let ghost mem0 = *mem;
        proof {
            self.lemma_trap_frame(mem);
        }
        ctx.store(mem, self.trap_ctx_ppn);
        proof {
            self.addr_space.lemma_wf(&mem0);
            assert forall|t: u64| #[trigger]
                self.addr_space.table().nodes().contains(t) implies mem.frame(t) == mem0.frame(t) by {
                assert(self.addr_space.owns(t));
            }
            self.lemma_frame_invariance(&mem0, mem);
        }
    }
}

/// A task.
pub struct Task {
    pub pid: PidHandle,
    pub name: String,
    /// Time at which the task was made, in milliseconds.
    pub start_time_ms: u64,
    /// Bottom and top of the kernel stack.
    pub kernel_stack: (u64, u64),
    /// The part of the task that changes while it lives.
    pub inner: TaskInner,
}

impl Task {
    /// Whether the part of the task that changes is well formed.
    pub open spec fn wf(&self, mem: &PhysMemory) -> bool {
        self.inner.wf(mem)
    }

    /// Access to the part of the task that changes while it lives.
    pub fn inner_exclusive_access(&mut self) -> (inner: &mut TaskInner)
        ensures
            *inner == old(self).inner,
            final(self).inner == *final(inner),
            final(self).pid == old(self).pid,
            final(self).name == old(self).name,
            final(self).start_time_ms == old(self).start_time_ms,
            final(self).kernel_stack == old(self).kernel_stack,
    {
        &mut self.inner
    }
}


/// Why a fork of the task `parent` fails, if it does: no identifier, no
/// kernel stack or too few frames are left.
pub open spec fn fork_failure(kernel: &Kernel, parent: usize) -> Option<KernelPanic> {
    if !kernel.pids@.can_alloc() {
        Some(KernelPanic::OutOfPids)
    } else if kernel.stacks.exhausted() {
        Some(KernelPanic::OutOfKernelStacks)
    } else if kernel.frames@.free_count() < Cover::total(
        kernel.task(parent).inner.addr_space.layout(),
    ) {
        Some(KernelPanic::OutOfFrames)
    } else {
        None
    }
}

/// Whether the task `child` of `after` is a fresh copy of the task `parent`
/// of `before`, made at the time `now_ms`: it has the name of the parent,
/// counters at zero, an address space with the same areas, in which every
/// user address holds the byte that the parent has there, and the trap
/// context of the parent but for the result register `a0`, which is zero,
/// and the kernel stack pointer, which is the top of its own kernel stack.
pub open spec fn forked(before: &Kernel, parent: usize, after: &Kernel, child: usize, now_ms: u64) -> bool {
    let old_task = before.task(parent);
    let new_task = after.task(child);
    &&& new_task.name@ == old_task.name@
    &&& new_task.start_time_ms == now_ms
    &&& forall|n: int| 0 <= n < MAX_SYSCALL_NUM ==> #[trigger] new_task.inner.syscall_times@[n] == 0
    &&& new_task.inner.exit_code == 0
    &&& new_task.inner.addr_space.laid_out(old_task.inner.addr_space.layout())
    &&& forall|va: u64| #[trigger]
        new_task.inner.addr_space.user_byte(&after.mem, va) == old_task.inner.addr_space.user_byte(
            &before.mem,
            va,
        )
    &&& forall|i: int|
        0 <= i < TRAP_CONTEXT_WORDS ==> #[trigger] after.mem.word(new_task.inner.trap_ctx_ppn, i)
            == if i == 10 {
            0
        } else if i == WORD_KERNEL_SP {
            new_task.kernel_stack.1
        } else {
            before.mem.word(old_task.inner.trap_ctx_ppn, i)
        }
}

/// Whether `after` is what a fork of the task `parent` at the time `now_ms`
/// makes of `before`, when it gives `res`: the identifier of the child, or
/// the reason of its failure.
pub open spec fn fork_done(
    before: &Kernel,
    after: &Kernel,
    parent: usize,
    now_ms: u64,
    res: Result<usize, KernelPanic>,
) -> bool {
    match res {
        Ok(child) => {
            &&& fork_failure(before, parent) is None
            &&& after.frames@.free_count() == before.frames@.free_count() - Cover::total(
                before.task(parent).inner.addr_space.layout(),
            )
            &&& after.frames@ == before.frames@.after_allocs(
                Cover::total(before.task(parent).inner.addr_space.layout()),
            )
            &&& before.added_task(after, child)
            &&& !before.has_task(child)
            &&& forked(before, parent, after, child, now_ms)
            &&& forall|q: usize|
                before.has_task(q) ==> after.has_task(q) && #[trigger] after.task(q) == before.task(q)
        },
        Err(e) => {
            &&& fork_failure(before, parent) == Some(e)
            &&& before.moved_for(after, parent)
            &&& after.tasks@ == before.tasks@
            &&& forall|f: u64| #[trigger]
                after.frames@.is_allocated(f) <==> before.frames@.is_allocated(f)
        },
    }
}

/// Makes a copy of the task `parent` at the time `now_ms`, puts it into the
/// table and at the back of the ready queue, and returns its identifier.
/// Fails, and leaves every task as it is, when an identifier, a kernel
/// stack or frames are lacking. The kernel is in order between traps, or
/// the trap handler deals with the parent.
pub fn fork_task(kernel: &mut Kernel, parent: usize, now_ms: u64) -> (res: Result<usize, KernelPanic>)
    requires
        old(kernel).wf() || old(kernel).wf_hand(Some(parent)),
        old(kernel).has_task(parent),
    ensures
        old(kernel).wf() ==> final(kernel).wf(),
        old(kernel).wf_hand(Some(parent)) ==> final(kernel).wf_hand(Some(parent)),
        fork_done(old(kernel), final(kernel), parent, now_ms, res),
{
    if kernel.processor.cur_task.is_some() {
        proof {
            // a task on the processor leaves no task in the hands of the trap handler
            assert(old(kernel).wf());
        }
        fork_in_hand(kernel, parent, now_ms, Ghost(None))
    } else {
        let ghost hand: Option<usize> = if old(kernel).wf_hand(Some(parent)) {
            Some(parent)
        } else {
            None
        };
        let res = fork_in_hand(kernel, parent, now_ms, Ghost(hand));
        proof {
            if old(kernel).wf() && old(kernel).wf_hand(Some(parent)) {
                // the parent cannot be in hand and out of hand at once
                assert(old(kernel).placed(parent, None));
                assert(old(kernel).placed(parent, Some(parent)));
            }
        }
        res
    }
}

/// Makes a copy of the task `parent`, while the trap handler deals with the
/// task `hand`, if any.
pub fn fork_in_hand(kernel: &mut Kernel, parent: usize, now_ms: u64, Ghost(hand): Ghost<Option<usize>>) -> (res:
    Result<usize, KernelPanic>)
    requires
        old(kernel).wf_hand(hand),
        old(kernel).has_task(parent),
    ensures
        final(kernel).wf_hand(hand),
        fork_done(old(kernel), final(kernel), parent, now_ms, res),
{
    let ghost pre = *kernel;
    proof {
        assert(pre.task_ok(parent));
        pre.task(parent).inner.addr_space.lemma_wf(&pre.mem);
    }
    if !kernel.pids.has_free() {
        proof {
            pre.lemma_same_state(kernel, hand);
            lemma_unmoved(&pre, kernel, parent);
        }
        return Err(KernelPanic::OutOfPids);
    }
    if kernel.stacks.is_exhausted() {
        proof {
            pre.lemma_same_state(kernel, hand);
            lemma_unmoved(&pre, kernel, parent);
        }
        return Err(KernelPanic::OutOfKernelStacks);
    }
    let copied = MemorySet::from_existed_user(
        &mut kernel.frames,
        &mut kernel.mem,
        &kernel.tasks[parent].as_ref().unwrap().inner.addr_space,
    );
    let space = match copied {
        Ok(space) => space,
        Err(_) => {
            proof {
                lemma_fork_rolled_back(&pre, kernel, parent, hand);
            }
            return Err(KernelPanic::OutOfFrames);
        },
    };
    let ghost mem1 = kernel.mem;
    let pid = kernel.pids.alloc_pid();
    proof {
        pre.pids@.lemma_alloc();
        assert(!pre.stacks.has(pid.0)) by {
            if pre.stacks.has(pid.0) {
                assert(pre.has_task(pid.0));
                assert(pre.task_ok(pid.0));
            }
        }
    }
    let stack = kernel.stacks.alloc_stack(pid.0).unwrap();
    let parent_task = kernel.tasks[parent].as_ref().unwrap();
    proof {
        let old_space = pre.task(parent).inner.addr_space;
        space.lemma_copy_alike(&mem1, &old_space, &pre.mem, TRAP_CONTEXT_VPN);
        space.lemma_mapped_frame_not_node(&mem1, TRAP_CONTEXT_VPN);
        space.lemma_wf(&mem1);
        assert(space.owns(space.mapping(&mem1, TRAP_CONTEXT_VPN)->0.ppn()));
    }
    let trap_ctx_ppn = space.frame_of(&kernel.mem, TRAP_CONTEXT_VPN).unwrap();
    let mut ctx = TrapContext::load(&kernel.mem, trap_ctx_ppn);
    ctx.set_reg_a(0, 0);
    ctx.kernel_sp = stack.1;
    ctx.store(&mut kernel.mem, trap_ctx_ppn);
    let inner = TaskInner {
        trap_ctx_ppn,
        state: TaskState::Ready,
        syscall_times: [0u32; 500],
        addr_space: space,
        children: Vec::new(),
        exit_code: 0,
    };
    let child = Task {
        pid,
        name: parent_task.name.clone(),
        start_time_ms: now_ms,
        kernel_stack: stack,
        inner,
    };
    proof {
        lemma_child_ready(&pre, &mem1, &kernel.mem, parent, &child, &ctx);
    }
    kernel.put_task(child);
    kernel.manager.add_task(pid.0);
    proof {
        assert(kernel.task(pid.0) == child);
        assert forall|q: usize| q != pid.0 && q < pre.tasks@.len() implies #[trigger] kernel.tasks@[q as int]
            == pre.tasks@[q as int] by {}
        assert forall|f: u64| pre.mem.contains(f) && pre.frames@.is_allocated(f)
            implies #[trigger] kernel.mem.frame(f) == pre.mem.frame(f) by {
            assert(mem1.frame(f) == pre.mem.frame(f));
            assert(!child.inner.addr_space.owns(f));
        }
        pre.lemma_task_added(kernel, pid.0, hand);
    }
    Ok(pid.0)
}

/// A kernel with the same state has moved for any task, trivially.
proof fn lemma_unmoved(pre: &Kernel, post: &Kernel, pid: usize)
    requires
        pre.resources_ok(),
        pre.table_ok(),
        pre.has_task(pid),
        pre.same_state(post),
    ensures
        pre.moved_for(post, pid),
{
    assert(pre.task_ok(pid));
    assert(post.task(pid) == pre.task(pid));
}

/// After a copy of an address space that failed and was rolled back, the
/// kernel is in order, and every task is as it was.
proof fn lemma_fork_rolled_back(pre: &Kernel, post: &Kernel, parent: usize, hand: Option<usize>)
    requires
        pre.wf_hand(hand),
        pre.has_task(parent),
        post.pids == pre.pids,
        post.stacks == pre.stacks,
        post.apps == pre.apps,
        post.kernel_space == pre.kernel_space,
        post.manager == pre.manager,
        post.processor == pre.processor,
        post.platform == pre.platform,
        post.tasks == pre.tasks,
        post.mem.wf(),
        pre.mem.same_extent(&post.mem),
        post.frames@.wf(),
        post.frames.within(&post.mem),
        forall|p: u64|
            pre.mem.contains(p) && pre.frames@.is_allocated(p) ==> #[trigger] post.mem.frame(p)
                == pre.mem.frame(p),
        forall|p: u64| #[trigger] post.frames@.is_allocated(p) <==> pre.frames@.is_allocated(p),
    ensures
        post.wf_hand(hand),
        pre.moved_for(post, parent),
{
    assert(pre.task_ok(parent));
    let space = pre.task(parent).inner.addr_space;
    space.lemma_wf(&pre.mem);
    assert forall|t: u64| #[trigger] space.table().nodes().contains(t) implies post.mem.frame(t)
        == pre.mem.frame(t) by {
        assert(space.owns(t));
    }
    pre.task(parent).inner.lemma_frame_invariance(&pre.mem, &post.mem);
    assert forall|p: u64| #[trigger] space.owns(p) implies post.frames@.is_allocated(p) by {
        assert(pre.frames@.is_allocated(p));
    }
    pre.lemma_moved(post, parent);
    pre.lemma_moved_places(post, parent, hand);
}

/// The copy of a task is well formed once its trap context was patched, and
/// holds the snapshot of the parent's user memory.
proof fn lemma_child_ready(
    pre: &Kernel,
    copied: &PhysMemory,
    patched: &PhysMemory,
    parent: usize,
    child: &Task,
    ctx: &TrapContext,
)
    requires
        pre.resources_ok(),
        pre.has_task(parent),
        pre.task_ok(parent),
        pre.mem.same_extent(copied),
        copied.same_but(patched, child.inner.trap_ctx_ppn),
        patched.wf(),
        child.inner.addr_space.wf(copied),
        pre.task(parent).inner.addr_space.wf(copied),
        forall|p: u64|
            pre.mem.contains(p) && pre.frames@.is_allocated(p) ==> #[trigger] copied.frame(p)
                == pre.mem.frame(p),
        child.inner.addr_space.laid_out(pre.task(parent).inner.addr_space.layout()),
        child.inner.addr_space.trampoline() == pre.task(parent).inner.addr_space.trampoline(),
        child.inner.addr_space.mirrors(
            copied,
            &pre.task(parent).inner.addr_space,
            &pre.mem,
            child.inner.addr_space.areas().len() as int,
        ),
        child.inner.addr_space.mapping(copied, TRAP_CONTEXT_VPN) is Some,
        child.inner.addr_space.mapping(copied, TRAP_CONTEXT_VPN)->0.ppn() == child.inner.trap_ctx_ppn,
        child.inner.state == TaskState::Ready,
        ctx.stored_at(patched, child.inner.trap_ctx_ppn),
    ensures
        child.wf(patched),
        forall|va: u64| #[trigger]
            child.inner.addr_space.user_byte(patched, va) == pre.task(
                parent,
            ).inner.addr_space.user_byte(&pre.mem, va),
        forall|i: int|
            0 <= i < TRAP_CONTEXT_WORDS ==> copied.word(child.inner.trap_ctx_ppn, i)
                == #[trigger] pre.mem.word(pre.task(parent).inner.trap_ctx_ppn, i),
{
    let space = child.inner.addr_space;
    let old_space = pre.task(parent).inner.addr_space;
    let t = child.inner.trap_ctx_ppn;
    let pt = pre.task(parent).inner.trap_ctx_ppn;
    old_space.lemma_wf(&pre.mem);
    space.lemma_wf(copied);
    space.lemma_copy_alike(copied, &old_space, &pre.mem, TRAP_CONTEXT_VPN);
    assert(space.framed_at(TRAP_CONTEXT_VPN));
    space.lemma_mapped_frame_not_node(copied, TRAP_CONTEXT_VPN);
    assert(copied.contains(t)) by {
        assert(space.owns(t));
    }
    assert forall|n: u64| #[trigger] space.table().nodes().contains(n) implies patched.frame(n)
        == copied.frame(n) by {
        assert(space.owns(n));
    }
    space.lemma_frame_invariance(copied, patched);
    assert(space.mapping(patched, TRAP_CONTEXT_VPN) == space.mapping(copied, TRAP_CONTEXT_VPN));
    assert(!space.mapping(copied, TRAP_CONTEXT_VPN)->0.user()) by {
        let a = space.mapping(copied, TRAP_CONTEXT_VPN)->0;
        let b = old_space.mapping(&pre.mem, TRAP_CONTEXT_VPN)->0;
        assert(a.flags() == b.flags());
    }
    assert forall|va: u64| #[trigger] space.user_byte(patched, va) == old_space.user_byte(
        &pre.mem,
        va,
    ) by {
        space.lemma_copy_snapshot(copied, &old_space, &pre.mem, va);
        assert(space.mapping(patched, vpn_of(va)) == space.mapping(copied, vpn_of(va)));
        if space.user_frame(copied, va) is Some {
            space.lemma_user_frame(copied, va);
            let f = space.user_frame(copied, va)->0;
            if f == t {
                assert(vpn_of(va) == TRAP_CONTEXT_VPN);
            }
        }
    }
    // the frame of the trap context was copied from the parent's
    let (i, k) = choose|i: int, k: int|
        0 <= i < space.areas().len() && 0 <= k < space.areas()[i].data_frames@.len()
            && #[trigger] space.areas()[i].data_frames@[k] == space.mapping(
            copied,
            TRAP_CONTEXT_VPN,
        )->0.ppn() && old_space.areas()[i].data_frames@[k] == old_space.mapping(
            &pre.mem,
            TRAP_CONTEXT_VPN,
        )->0.ppn();
    assert(copied.frame(space.areas()[i].data_frames@[k]) == pre.mem.frame(
        old_space.areas()[i].data_frames@[k],
    ));
}


/// What a new task takes from the kernel and the hardware: the value of
/// `sstatus`, the `satp` value of the kernel's address space, the address
/// of the trap handler, the frame of the trampoline, and the time.
#[derive(Clone, Copy, Debug, PartialEq, Eq, Structural)]
pub struct TaskSeed {
    pub sstatus: u64,
    pub kernel_satp: u64,
    pub trap_handler: u64,
    pub trampoline_ppn: u64,
    pub now_ms: u64,
}

/// Why a task cannot be made.
#[derive(Clone, Copy, Debug, PartialEq, Eq, Structural)]
pub enum TaskError {
    /// Every process identifier is handed out.
    NoPid,
    /// Every kernel stack is handed out.
    NoKernelStack,
    /// The catalog holds no program with the name.
    NoSuchApp,
    /// The image of the program cannot be loaded.
    Image(ElfError),
}

/// Why making a task from an image fails, if it does.
pub open spec fn new_failure(
    pids: &PidAllocator,
    stacks: &KernelStackPool,
    image: Seq<u8>,
    free: nat,
) -> Option<TaskError> {
    if !pids@.can_alloc() {
        Some(TaskError::NoPid)
    } else if stacks.exhausted() {
        Some(TaskError::NoKernelStack)
    } else {
        match load_failure(image, free) {
            Some(e) => Some(TaskError::Image(e)),
            None => None,
        }
    }
}

/// The word with the index `i` of the trap context of a task that starts:
/// the stack pointer `x2` is the top of the user stack, `sepc` is the
/// entry point, `sstatus` returns to user mode, and the other registers
/// are zero.
pub open spec fn initial_word(i: int, user_sp: u64, entry: u64, kernel_sp: u64, seed: TaskSeed) -> u64 {
    if i == 2 {
        user_sp
    } else if i < 32 {
        0
    } else if i == 32 {
        user_sstatus(seed.sstatus)
    } else if i == 33 {
        entry
    } else if i == 34 {
        seed.kernel_satp
    } else if i == 35 {
        kernel_sp
    } else {
        seed.trap_handler
    }
}

/// Whether `task` is a task that was made from the image `image` with the
/// name `name`: ready, without children, with counters at zero, with the
/// segments of the image and a blank user stack in its address space, and
/// with a trap context that starts the program.
pub open spec fn started(task: &Task, mem: &PhysMemory, name: Seq<char>, image: Seq<u8>, seed: TaskSeed) -> bool {
    let segs = elf_segments(image);
    let space = task.inner.addr_space;
    let user_sp = ((segments_top(segs) + USER_STACK_PAGE_NUM) * PAGE_SIZE) as u64;
    &&& task.name@ == name
    &&& task.start_time_ms == seed.now_ms
    &&& task.inner.state == TaskState::Ready
    &&& task.inner.children@.len() == 0
    &&& task.inner.exit_code == 0
    &&& forall|n: int| 0 <= n < MAX_SYSCALL_NUM ==> #[trigger] task.inner.syscall_times@[n] == 0
    &&& space.trampoline() == seed.trampoline_ppn
    &&& space.laid_out(image_layout(segs))
    &&& forall|j: int|
        0 <= j < segs.len() ==> #[trigger] space.holds_segment(
            mem,
            j,
            image,
            segs[j],
            segs[j].file_size as int,
        )
    &&& forall|k: int|
        0 <= k < space.areas()[segs.len() as int].data_frames@.len() ==> mem.frame(
            #[trigger] space.areas()[segs.len() as int].data_frames@[k],
        ) == crate::mm::memory::zero_frame()
    &&& forall|i: int|
        0 <= i < 512 ==> #[trigger] mem.word(task.inner.trap_ctx_ppn, i) == if i
            < TRAP_CONTEXT_WORDS {
            initial_word(i, user_sp, elf_entry(image) as u64, task.kernel_stack.1, seed)
        } else {
            0
        }
}

impl Task {
    /// Makes the task of a program: an identifier and a kernel stack are
    /// taken, the image is loaded into a new address space, and the trap
    /// context is set to start the program. Fails, and takes nothing, when
    /// an identifier, a kernel stack or frames are lacking or the image
    /// cannot be loaded.
    pub fn new(
        name: &str,
        image: &Vec<u8>,
        seed: &TaskSeed,
        pids: &mut PidAllocator,
        stacks: &mut KernelStackPool,
        frames: &mut StackFrameAllocator,
        mem: &mut PhysMemory,
    ) -> (res: Result<Task, TaskError>)
        requires
            old(pids)@.wf(),
            old(stacks).wf(),
            old(frames)@.wf(),
            old(mem).wf(),
            old(frames).within(old(mem)),
            seed.trampoline_ppn < PPN_LIMIT,
            forall|q: usize| #[trigger] old(stacks).has(q) ==> old(pids)@.is_allocated(q),
        ensures
            final(pids)@.wf(),
            final(stacks).wf(),
            final(frames)@.wf(),
            final(mem).wf(),
            final(frames).within(final(mem)),
            old(mem).same_extent(final(mem)),
            forall|slot: usize| #[trigger] final(stacks).range_of(slot) == old(stacks).range_of(slot),
            forall|p: u64|
                old(mem).contains(p) && old(frames)@.is_allocated(p) ==> #[trigger] final(mem).frame(p)
                    == old(mem).frame(p),
            match res {
                Err(e) => {
                    &&& new_failure(
                        old(pids),
                        old(stacks),
                        image@,
                        old(frames)@.free_count(),
                    ) == Some(e)
                    &&& *final(pids) == *old(pids)
                    &&& *final(stacks) == *old(stacks)
                    &&& forall|p: u64| #[trigger]
                        final(frames)@.is_allocated(p) <==> old(frames)@.is_allocated(p)
                },
                Ok(task) => {
                    let pid = task.pid.0;
                    &&& new_failure(
                        old(pids),
                        old(stacks),
                        image@,
                        old(frames)@.free_count(),
                    ) is None
                    &&& pid == old(pids)@.next()
                    &&& final(pids)@ == old(pids)@.after_alloc()
                    &&& final(stacks).has(pid)
                    &&& forall|q: usize|
                        q != pid ==> (#[trigger] final(stacks).has(q) <==> old(stacks).has(q))
                    &&& forall|q: usize|
                        q != pid && old(stacks).has(q) ==> #[trigger] final(stacks).slot_of(q) == old(stacks).slot_of(q)
                    &&& task.kernel_stack == final(stacks).range_of(final(stacks).slot_of(pid))
                    &&& task.wf(final(mem))
                    &&& final(frames)@.free_count() == old(frames)@.free_count() - Cover::total(
                        image_layout(elf_segments(image@)),
                    )
                    &&& final(frames)@ == old(frames)@.after_allocs(
                        Cover::total(image_layout(elf_segments(image@))),
                    )
                    &&& task.inner.addr_space.owned_in(final(frames)@)
                    &&& forall|p: u64| #[trigger]
                        final(frames)@.is_allocated(p) <==> old(frames)@.is_allocated(p)
                            || task.inner.addr_space.owns(p)
                    &&& forall|p: u64| #[trigger]
                        task.inner.addr_space.owns(p) ==> !old(frames)@.is_allocated(p)
                    &&& started(&task, final(mem), name@, image@, *seed)
                },
            },
    {
        if !pids.has_free() {
            return Err(TaskError::NoPid);
        }
        if stacks.is_exhausted() {
            return Err(TaskError::NoKernelStack);
        }
        let ghost mem0 = *mem;
        let (space, user_sp, entry) = match MemorySet::from_elf(
            frames,
            mem,
            seed.trampoline_ppn,
            image,
        ) {
            Ok(loaded) => loaded,
            Err(e) => {
                return Err(TaskError::Image(e));
            },
        };
        let pid = pids.alloc_pid();
        proof {
            old(pids)@.lemma_alloc();
        }
        let stack = stacks.alloc_stack(pid.0).unwrap();
        let ghost mem1 = *mem;
        let inner = Self::init(space, user_sp, entry, stack.1, seed, mem, Ghost(image@));
        let task = Task {
            pid,
            name: name.to_owned(),
            start_time_ms: seed.now_ms,
            kernel_stack: stack,
            inner,
        };
        proof {
            assert forall|p: u64| mem0.contains(p) && old(frames)@.is_allocated(p)
                implies #[trigger] mem.frame(p) == mem0.frame(p) by {
                assert(mem1.frame(p) == mem0.frame(p));
                assert(!task.inner.addr_space.owns(p));
            }
        }
        Ok(task)
    }

    /// Sets up the part of a new task that changes: finds the frame of the
    /// trap context in the address space and writes the context that starts
    /// the program to it.
    fn init(
        space: MemorySet,
        user_sp: u64,
        entry: u64,
        kernel_sp: u64,
        seed: &TaskSeed,
        mem: &mut PhysMemory,
        Ghost(image): Ghost<Seq<u8>>,
    ) -> (inner: TaskInner)
        requires
            space.wf(old(mem)),
            space.laid_out(image_layout(elf_segments(image))),
            space.holds_image(old(mem), image, elf_segments(image)),
        ensures
            inner.addr_space == space,
            inner.wf(final(mem)),
            inner.state == TaskState::Ready,
            inner.children@.len() == 0,
            inner.exit_code == 0,
            forall|n: int| 0 <= n < MAX_SYSCALL_NUM ==> #[trigger] inner.syscall_times@[n] == 0,
            old(mem).same_but(final(mem), inner.trap_ctx_ppn),
            space.owns(inner.trap_ctx_ppn),
            final(mem).wf(),
            forall|j: int|
                0 <= j < elf_segments(image).len() ==> #[trigger] space.holds_segment(
                    final(mem),
                    j,
                    image,
                    elf_segments(image)[j],
                    elf_segments(image)[j].file_size as int,
                ),
            forall|k: int|
                0 <= k < space.areas()[elf_segments(image).len() as int].data_frames@.len()
                    ==> final(mem).frame(
                    #[trigger] space.areas()[elf_segments(image).len() as int].data_frames@[k],
                ) == crate::mm::memory::zero_frame(),
            forall|i: int|
                0 <= i < 512 ==> #[trigger] final(mem).word(inner.trap_ctx_ppn, i) == if i
                    < TRAP_CONTEXT_WORDS {
                    initial_word(i, user_sp, entry, kernel_sp, *seed)
                } else {
                    0
                },
    {
        let ghost mem0 = *mem;
        let ghost segs = elf_segments(image);
        proof {
            lemma_trap_area(&space, &mem0, segs);
            space.lemma_wf(&mem0);
        }
        let trap_ctx_ppn = space.frame_of(mem, TRAP_CONTEXT_VPN).unwrap();
        let ctx = TrapContext::app_init_context(
            user_sp,
            entry,
            kernel_sp,
            seed.sstatus,
            seed.kernel_satp,
            seed.trap_handler,
        );
        ctx.store(mem, trap_ctx_ppn);
        let inner = TaskInner {
            trap_ctx_ppn,
            state: TaskState::Ready,
            syscall_times: [0u32; 500],
            addr_space: space,
            children: Vec::new(),
            exit_code: 0,
        };
        proof {
            space.lemma_wf(&mem0);
            assert forall|t: u64| #[trigger] space.table().nodes().contains(t) implies mem.frame(t)
                == mem0.frame(t) by {
                assert(space.owns(t));
            }
            space.lemma_frame_invariance(&mem0, mem);
            assert(space.mapping(mem, TRAP_CONTEXT_VPN) == space.mapping(&mem0, TRAP_CONTEXT_VPN));
            assert forall|i: int| 0 <= i < 512 implies #[trigger] mem.word(trap_ctx_ppn, i) == if i
                < TRAP_CONTEXT_WORDS {
                initial_word(i, user_sp, entry, kernel_sp, *seed)
            } else {
                0
            } by {
                if i < TRAP_CONTEXT_WORDS {
                    assert(mem.word(trap_ctx_ppn, i) == ctx.word(i));
                } else {
                    assert(mem.word(trap_ctx_ppn, i) == mem0.word(trap_ctx_ppn, i));
                    let n = segs.len() as int;
                    assert(mem0.frame(space.areas()[n + 1].data_frames@[0])
                        == crate::mm::memory::zero_frame());
                    crate::mm::memory::lemma_zero_frame_word(i);
                }
            }
            lemma_program_kept(&space, &mem0, mem, image, segs, trap_ctx_ppn);
        }
        inner
    }
}

/// The last area of the address space of a program holds the trap context:
/// a framed page, not accessible in user mode, in a frame of the areas.
proof fn lemma_trap_area(space: &MemorySet, mem: &PhysMemory, segs: Seq<crate::mm::elf::Segment>)
    requires
        space.wf(mem),
        space.laid_out(image_layout(segs)),
    ensures
        space.framed_at(TRAP_CONTEXT_VPN),
        space.mapping(mem, TRAP_CONTEXT_VPN) is Some,
        !space.mapping(mem, TRAP_CONTEXT_VPN)->0.user(),
        space.data_frames().contains(space.mapping(mem, TRAP_CONTEXT_VPN)->0.ppn()),
        space.owns(space.mapping(mem, TRAP_CONTEXT_VPN)->0.ppn()),
        mem.contains(space.mapping(mem, TRAP_CONTEXT_VPN)->0.ppn()),
        space.areas()[segs.len() as int + 1].data_frames@.len() == 1,
        space.areas()[segs.len() as int + 1].data_frames@[0] == space.mapping(
            mem,
            TRAP_CONTEXT_VPN,
        )->0.ppn(),
{
    let layout = image_layout(segs);
    let n = segs.len() as int;
    space.lemma_wf(mem);
    assert(layout[n + 1].describes(&space.areas()[n + 1]));
    let area = space.areas()[n + 1];
    assert(area.wf());
    assert(area.contains_vpn(TRAP_CONTEXT_VPN));
    assert(space.mapping(mem, TRAP_CONTEXT_VPN) == Some(area.entry(TRAP_CONTEXT_VPN)));
    let p = area.data_frames@[0];
    assert(space.data_frames().contains(space.areas()[n + 1].data_frames@[0]));
    assert(space.owns(p));
    mem.lemma_frame_len(p);
    crate::mm::page_table::PageTableEntry::lemma_fields(
        p,
        crate::mm::page_table::with_valid(area.map_perm),
    );
}

/// Writing the trap context leaves the segments and the user stack of a
/// program as they are.
proof fn lemma_program_kept(
    space: &MemorySet,
    before: &PhysMemory,
    after: &PhysMemory,
    image: Seq<u8>,
    segs: Seq<crate::mm::elf::Segment>,
    trap_frame: u64,
)
    requires
        space.wf(before),
        space.laid_out(image_layout(segs)),
        space.holds_image(before, image, segs),
        before.same_but(after, trap_frame),
        space.mapping(before, TRAP_CONTEXT_VPN) is Some,
        space.mapping(before, TRAP_CONTEXT_VPN)->0.ppn() == trap_frame,
    ensures
        forall|j: int|
            0 <= j < segs.len() ==> #[trigger] space.holds_segment(
                after,
                j,
                image,
                segs[j],
                segs[j].file_size as int,
            ),
        forall|k: int|
            0 <= k < space.areas()[segs.len() as int].data_frames@.len() ==> after.frame(
                #[trigger] space.areas()[segs.len() as int].data_frames@[k],
            ) == crate::mm::memory::zero_frame(),
{
    let layout = image_layout(segs);
    let n = segs.len() as int;
    lemma_trap_area(space, before, segs);
    space.lemma_wf(before);
    assert forall|j: int, k: int|
        0 <= j <= n && 0 <= k < space.areas()[j].data_frames@.len() implies after.frame(
        #[trigger] space.areas()[j].data_frames@[k],
    ) == before.frame(space.areas()[j].data_frames@[k]) by {
        let p = space.areas()[j].data_frames@[k];
        assert(layout[j].describes(&space.areas()[j]));
        assert(space.data_frames().contains(p));
        assert(space.owns(p));
        if p == trap_frame {
            space.lemma_two_frames(before, j, k, n + 1, 0);
        }
    }
    assert forall|j: int| 0 <= j < segs.len() implies #[trigger] space.holds_segment(
        after,
        j,
        image,
        segs[j],
        segs[j].file_size as int,
    ) by {
        assert(space.holds_segment(before, j, image, segs[j], segs[j].file_size as int));
        assert forall|k: int, off: int|
            0 <= k < space.areas()[j].data_frames@.len() && 0 <= off < PAGE_SIZE
            implies #[trigger] after.frame(space.areas()[j].data_frames@[k])[off]
            == segment_byte(
            image,
            crate::mm::elf::Segment { file_size: segs[j].file_size, ..segs[j] },
            (space.areas()[j].start_vpn + k) * PAGE_SIZE + off,
        ) by {
            assert(after.frame(space.areas()[j].data_frames@[k]) == before.frame(
                space.areas()[j].data_frames@[k],
            ));
            assert(before.frame(space.areas()[j].data_frames@[k])[off]
                == segment_byte(
                image,
                crate::mm::elf::Segment { file_size: segs[j].file_size, ..segs[j] },
                (space.areas()[j].start_vpn + k) * PAGE_SIZE + off,
            ));
        }
    }
}

} // verus!
